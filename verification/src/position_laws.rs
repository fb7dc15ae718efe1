//! What holds of every list of positions, proved from the meaning that
//! `cutr` gives to lists.

use crate::cutr::{
    interval_meaning, intervals_meaning, is_interval, lemma_intervals_concat,
    lemma_intervals_single, positions_meaning, CutErrorView,
};
use crate::text::{
    all_digits, decimal_digits, decimal_value, first_index, is_digit, is_number,
    lemma_decimal_digits, lemma_first_index_bounds, lemma_first_index_is, lemma_leading_zeros,
    split_on,
};
use std::ops::Range;
use vstd::prelude::*;

verus! {

/// What a list made of the one item `t` means.
pub open spec fn single_meaning(t: Seq<char>) -> Result<Seq<Range<usize>>, CutErrorView> {
    match interval_meaning(t) {
        Err(e) => Err(e),
        Ok(r) => Ok(seq![r]),
    }
}

/// What two lists mean when written one after the other.
pub open spec fn joined_meaning(
    first: Result<Seq<Range<usize>>, CutErrorView>,
    second: Result<Seq<Range<usize>>, CutErrorView>,
) -> Result<Seq<Range<usize>>, CutErrorView> {
    match first {
        Err(e) => Err(e),
        Ok(ra) => match second {
            Err(e) => Err(e),
            Ok(rb) => Ok(ra + rb),
        },
    }
}

pub open spec fn free_of(s: Seq<char>, c: char) -> bool {
    forall|i: int| 0 <= i < s.len() ==> #[trigger] s[i] != c
}

/// The range written `a-b`.
pub open spec fn span_text(a: Seq<char>, b: Seq<char>) -> Seq<char> {
    a + seq!['-'] + b
}

proof fn lemma_digits_free_of(s: Seq<char>, c: char)
    requires
        all_digits(s),
        !is_digit(c),
    ensures
        free_of(s, c),
{
}

/// A text without a comma is a list of one item.
pub proof fn lemma_one_item(t: Seq<char>)
    requires
        free_of(t, ','),
    ensures
        positions_meaning(t) == single_meaning(t),
{
    lemma_first_index_is(t, ',', t.len() as int);
    lemma_intervals_single(t);
}

proof fn lemma_number_is_interval(d: Seq<char>)
    requires
        is_number(d),
    ensures
        first_index(d, '-') == d.len(),
        is_interval(d),
        free_of(d, ','),
{
    lemma_digits_free_of(d, '-');
    lemma_digits_free_of(d, ',');
    lemma_first_index_is(d, '-', d.len() as int);
    assert(d.take(d.len() as int) =~= d);
}

proof fn lemma_span_is_interval(a: Seq<char>, b: Seq<char>)
    requires
        is_number(a),
        is_number(b),
    ensures
        first_index(span_text(a, b), '-') == a.len(),
        span_text(a, b).take(a.len() as int) == a,
        span_text(a, b).skip(a.len() as int + 1) == b,
        is_interval(span_text(a, b)),
        free_of(span_text(a, b), ','),
{
    let t = span_text(a, b);
    lemma_digits_free_of(a, '-');
    lemma_digits_free_of(a, ',');
    lemma_digits_free_of(b, ',');
    assert forall|i: int| 0 <= i < a.len() implies t[i] != '-' by {
        assert(t[i] == a[i]);
    }
    lemma_first_index_is(t, '-', a.len() as int);
    assert(t.take(a.len() as int) =~= a);
    assert(t.skip(a.len() as int + 1) =~= b);
    assert forall|i: int| 0 <= i < t.len() implies #[trigger] t[i] != ',' by {
        if i < a.len() {
            assert(t[i] == a[i]);
        } else if i > a.len() {
            assert(t[i] == b[i - a.len() - 1]);
        }
    }
}

/// The position `n`, written without leading zeros, selects the one element
/// at index `n - 1`.
pub proof fn law_single_position(n: nat)
    requires
        1 <= n <= usize::MAX,
    ensures
        positions_meaning(decimal_digits(n)) == Ok::<Seq<Range<usize>>, CutErrorView>(
            seq![Range { start: (n - 1) as usize, end: n as usize }],
        ),
{
    let d = decimal_digits(n);
    lemma_decimal_digits(n);
    lemma_number_is_interval(d);
    lemma_one_item(d);
    assert(d.take(d.len() as int) =~= d);
}

/// The range `a-b` with `1 <= a < b` selects the indices from `a - 1` up to,
/// and without, `b`.
pub proof fn law_span(a: nat, b: nat)
    requires
        1 <= a < b <= usize::MAX,
    ensures
        positions_meaning(span_text(decimal_digits(a), decimal_digits(b))) == Ok::<
            Seq<Range<usize>>,
            CutErrorView,
        >(seq![Range { start: (a - 1) as usize, end: b as usize }]),
{
    lemma_decimal_digits(a);
    lemma_decimal_digits(b);
    lemma_span_is_interval(decimal_digits(a), decimal_digits(b));
    lemma_one_item(span_text(decimal_digits(a), decimal_digits(b)));
}

/// A range whose first number is not below its second is refused, and the
/// error holds both numbers.
pub proof fn law_span_order(a: nat, b: nat)
    requires
        a <= usize::MAX,
        b <= a,
    ensures
        positions_meaning(span_text(decimal_digits(a), decimal_digits(b))) == Err::<
            Seq<Range<usize>>,
            CutErrorView,
        >(CutErrorView::InvalidRangeOrder(a, b)),
{
    lemma_decimal_digits(a);
    lemma_decimal_digits(b);
    lemma_span_is_interval(decimal_digits(a), decimal_digits(b));
    lemma_one_item(span_text(decimal_digits(a), decimal_digits(b)));
}

/// An item that is neither a position nor a range is refused, and the error
/// holds the item as it was written.
pub proof fn law_illegal_item(t: Seq<char>)
    requires
        free_of(t, ','),
        !is_interval(t),
    ensures
        positions_meaning(t) == Err::<Seq<Range<usize>>, CutErrorView>(
            CutErrorView::IllegalListValue(t),
        ),
{
    lemma_one_item(t);
}

/// An item that begins with a sign is neither a position nor a range.
pub proof fn law_signed_item(t: Seq<char>)
    requires
        t.len() > 0,
        t[0] == '+' || t[0] == '-',
    ensures
        !is_interval(t),
{
    lemma_first_index_bounds(t, '-');
    let k = first_index(t, '-');
    if k > 0 {
        assert(t.take(k)[0] == t[0]);
    }
}

/// Every character is the digit zero.
pub open spec fn all_zeros(zeros: Seq<char>) -> bool {
    forall|i: int| 0 <= i < zeros.len() ==> zeros[i] == '0'
}

/// The position zero is refused, however many zeros write it.
pub proof fn law_zero_position(zeros: Seq<char>)
    requires
        zeros.len() > 0,
        all_zeros(zeros),
    ensures
        positions_meaning(zeros) == Err::<Seq<Range<usize>>, CutErrorView>(
            CutErrorView::IllegalListValue(seq!['0']),
        ),
{
    assert(is_number(zeros));
    lemma_number_is_interval(zeros);
    lemma_one_item(zeros);
    assert(zeros.take(zeros.len() as int) =~= zeros);
    crate::text::lemma_zeros_value(zeros);
}

/// A range that begins with zero and is in order is refused for the zero,
/// whatever its second number is.
pub proof fn law_zero_span(zeros: Seq<char>, b: Seq<char>)
    requires
        zeros.len() > 0,
        all_zeros(zeros),
        is_number(b),
        decimal_value(b) >= 1,
    ensures
        positions_meaning(span_text(zeros, b)) == Err::<Seq<Range<usize>>, CutErrorView>(
            CutErrorView::IllegalListValue(seq!['0']),
        ),
{
    assert(is_number(zeros));
    lemma_span_is_interval(zeros, b);
    lemma_one_item(span_text(zeros, b));
    crate::text::lemma_zeros_value(zeros);
}

/// Zeros in front of a number give a number.
proof fn lemma_padded_number(zeros: Seq<char>, d: Seq<char>)
    requires
        all_zeros(zeros),
        is_number(d),
    ensures
        is_number(zeros + d),
        decimal_value(zeros + d) == decimal_value(d),
{
    let z = zeros + d;
    assert forall|i: int| 0 <= i < z.len() implies is_digit(#[trigger] z[i]) by {
        if i >= zeros.len() {
            assert(z[i] == d[i - zeros.len()]);
        }
    }
    lemma_leading_zeros(zeros, d);
}

/// Zeros in front of a position do not change what the item means.
proof fn lemma_zeros_position_item(zeros: Seq<char>, d: Seq<char>)
    requires
        all_zeros(zeros),
        is_number(d),
    ensures
        interval_meaning(zeros + d) == interval_meaning(d),
        free_of(zeros + d, ','),
        free_of(d, ','),
{
    let z = zeros + d;
    lemma_padded_number(zeros, d);
    lemma_number_is_interval(z);
    lemma_number_is_interval(d);
    assert(z.take(z.len() as int) =~= z);
    assert(d.take(d.len() as int) =~= d);
}

/// Zeros in front of either number of a range do not change what the item
/// means.
proof fn lemma_zeros_span_item(zeros_a: Seq<char>, a: Seq<char>, zeros_b: Seq<char>, b: Seq<char>)
    requires
        all_zeros(zeros_a),
        all_zeros(zeros_b),
        is_number(a),
        is_number(b),
    ensures
        interval_meaning(span_text(zeros_a + a, zeros_b + b)) == interval_meaning(span_text(a, b)),
        free_of(span_text(zeros_a + a, zeros_b + b), ','),
        free_of(span_text(a, b), ','),
{
    lemma_padded_number(zeros_a, a);
    lemma_padded_number(zeros_b, b);
    lemma_span_is_interval(zeros_a + a, zeros_b + b);
    lemma_span_is_interval(a, b);
}

/// Zeros in front of a position change nothing.
pub proof fn law_leading_zeros_position(zeros: Seq<char>, d: Seq<char>)
    requires
        all_zeros(zeros),
        is_number(d),
    ensures
        positions_meaning(zeros + d) == positions_meaning(d),
{
    lemma_zeros_position_item(zeros, d);
    lemma_one_item(zeros + d);
    lemma_one_item(d);
}

/// Zeros in front of either number of a range change nothing.
pub proof fn law_leading_zeros_span(
    zeros_a: Seq<char>,
    a: Seq<char>,
    zeros_b: Seq<char>,
    b: Seq<char>,
)
    requires
        all_zeros(zeros_a),
        all_zeros(zeros_b),
        is_number(a),
        is_number(b),
    ensures
        positions_meaning(span_text(zeros_a + a, zeros_b + b)) == positions_meaning(
            span_text(a, b),
        ),
{
    lemma_zeros_span_item(zeros_a, a, zeros_b, b);
    lemma_one_item(span_text(zeros_a + a, zeros_b + b));
    lemma_one_item(span_text(a, b));
}

/// `padded` is the position `item` with `zeros` in front.
pub open spec fn is_padded_position(zeros: Seq<char>, item: Seq<char>, padded: Seq<char>) -> bool {
    all_zeros(zeros) && is_number(item) && padded == zeros + item
}

/// `padded` is the range `a-b` with `zeros_a` in front of its first number
/// and `zeros_b` in front of its second.
pub open spec fn is_padded_span(
    zeros_a: Seq<char>,
    a: Seq<char>,
    zeros_b: Seq<char>,
    b: Seq<char>,
    padded: Seq<char>,
) -> bool {
    all_zeros(zeros_a) && all_zeros(zeros_b) && is_number(a) && is_number(b) && padded
        == span_text(zeros_a + a, zeros_b + b)
}

/// `padded` is `item` with zeros, as many as one likes and also none, put
/// directly in front of its numbers; an item that is no position and no
/// range is left as it is.
pub open spec fn pads_item(item: Seq<char>, padded: Seq<char>) -> bool {
    ||| padded == item
    ||| exists|zeros: Seq<char>| #[trigger] is_padded_position(zeros, item, padded)
    ||| exists|zeros_a: Seq<char>, a: Seq<char>, zeros_b: Seq<char>, b: Seq<char>|
        item == span_text(a, b) && #[trigger] is_padded_span(zeros_a, a, zeros_b, b, padded)
}

/// `padded` is `list` with zeros put directly in front of any of its
/// numbers: item by item it is the same list.
pub open spec fn pads_list(list: Seq<char>, padded: Seq<char>) -> bool {
    let items = split_on(list, ',');
    let padded_items = split_on(padded, ',');
    items.len() == padded_items.len() && forall|i: int|
        0 <= i < items.len() ==> pads_item(items[i], #[trigger] padded_items[i])
}

/// An item with zeros in front of its numbers means what the item means.
pub proof fn lemma_padded_item(item: Seq<char>, padded: Seq<char>)
    requires
        pads_item(item, padded),
    ensures
        interval_meaning(padded) == interval_meaning(item),
{
    if padded == item {
    } else if exists|zeros: Seq<char>| #[trigger] is_padded_position(zeros, item, padded) {
        let zeros = choose|zeros: Seq<char>| #[trigger] is_padded_position(zeros, item, padded);
        lemma_zeros_position_item(zeros, item);
    } else {
        let (zeros_a, a, zeros_b, b) = choose|
            zeros_a: Seq<char>,
            a: Seq<char>,
            zeros_b: Seq<char>,
            b: Seq<char>,
        |
            item == span_text(a, b) && #[trigger] is_padded_span(zeros_a, a, zeros_b, b, padded);
        lemma_zeros_span_item(zeros_a, a, zeros_b, b);
    }
}

/// Lists whose items mean the same, one by one, mean the same.
proof fn lemma_same_items(items: Seq<Seq<char>>, others: Seq<Seq<char>>)
    requires
        items.len() == others.len(),
        forall|i: int|
            0 <= i < items.len() ==> interval_meaning(items[i]) == interval_meaning(
                #[trigger] others[i],
            ),
    ensures
        intervals_meaning(items) == intervals_meaning(others),
    decreases items.len(),
{
    if items.len() > 0 {
        let n = items.len() - 1;
        assert forall|i: int| 0 <= i < n implies interval_meaning(items.drop_last()[i])
            == interval_meaning(#[trigger] others.drop_last()[i]) by {
            assert(others.drop_last()[i] == others[i]);
        }
        lemma_same_items(items.drop_last(), others.drop_last());
        assert(interval_meaning(items.last()) == interval_meaning(others[n]));
    }
}

/// Zeros directly in front of any of the numbers of a list change nothing:
/// the list means the same ranges, or is refused for the same reason.
pub proof fn law_leading_zeros(list: Seq<char>, padded: Seq<char>)
    requires
        pads_list(list, padded),
    ensures
        positions_meaning(padded) == positions_meaning(list),
{
    let items = split_on(list, ',');
    let padded_items = split_on(padded, ',');
    assert forall|i: int| 0 <= i < items.len() implies interval_meaning(items[i])
        == interval_meaning(#[trigger] padded_items[i]) by {
        lemma_padded_item(items[i], padded_items[i]);
    }
    lemma_same_items(items, padded_items);
}

/// Splitting at commas splits a text joined by a comma into the pieces of its
/// two parts.
pub proof fn lemma_split_join(s: Seq<char>, t: Seq<char>)
    ensures
        split_on(s + seq![','] + t, ',') == split_on(s, ',') + split_on(t, ','),
    decreases s.len(),
{
    let whole = s + seq![','] + t;
    let k = first_index(s, ',');
    lemma_first_index_bounds(s, ',');
    assert forall|i: int| 0 <= i < k implies whole[i] != ',' by {
        assert(whole[i] == s[i]);
    }
    if k < s.len() {
        assert(whole[k] == s[k]);
    }
    lemma_first_index_is(whole, ',', k);
    assert(whole.take(k) =~= s.take(k));
    if k < s.len() {
        lemma_split_join(s.skip(k + 1), t);
        assert(whole.skip(k + 1) =~= s.skip(k + 1) + seq![','] + t);
        assert(split_on(whole, ',') =~= split_on(s, ',') + split_on(t, ','));
    } else {
        assert(whole.skip(k + 1) =~= t);
        assert(s.take(k) =~= s);
        assert(split_on(whole, ',') =~= split_on(s, ',') + split_on(t, ','));
    }
}

/// Two lists joined by a comma mean the ranges of the first followed by the
/// ranges of the second: the order of writing is kept, and nothing is merged
/// or left out.
pub proof fn law_comma_join(s: Seq<char>, t: Seq<char>)
    ensures
        positions_meaning(s + seq![','] + t) == joined_meaning(
            positions_meaning(s),
            positions_meaning(t),
        ),
{
    lemma_split_join(s, t);
    lemma_intervals_concat(split_on(s, ','), split_on(t, ','));
}

} // verus!
