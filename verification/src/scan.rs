//! Byte-level model shared by the parsers: line-break runs, first occurrence
//! of a byte, counting occurrences, and separator-delimited splitting.

use vstd::prelude::*;

verus! {

/// The two bytes the parser ignores between segments.
pub open spec fn is_line_break(b: u8) -> bool {
    b == 10u8 || b == 13u8
}

/// Length of the longest prefix of `s` made of line-break bytes.
pub open spec fn lead_breaks(s: Seq<u8>) -> nat
    decreases s.len(),
{
    if s.len() > 0 && is_line_break(s[0]) {
        1 + lead_breaks(s.skip(1))
    } else {
        0
    }
}

pub proof fn lemma_lead_breaks(s: Seq<u8>)
    ensures
        lead_breaks(s) <= s.len(),
        forall|i: int| 0 <= i < lead_breaks(s) ==> is_line_break(#[trigger] s[i]),
        lead_breaks(s) < s.len() ==> !is_line_break(s[lead_breaks(s) as int]),
    decreases s.len(),
{
    if s.len() > 0 && is_line_break(s[0]) {
        lemma_lead_breaks(s.skip(1));
        assert forall|i: int| 0 <= i < lead_breaks(s) implies is_line_break(#[trigger] s[i]) by {
            if i > 0 {
                assert(s.skip(1)[i - 1] == s[i]);
            }
        }
        if lead_breaks(s) < s.len() {
            assert(s.skip(1)[lead_breaks(s) - 1] == s[lead_breaks(s) as int]);
        }
    }
}

/// `lead_breaks` is pinned down by its characteristic properties.
pub proof fn lemma_lead_breaks_is(s: Seq<u8>, k: int)
    requires
        0 <= k <= s.len(),
        forall|i: int| 0 <= i < k ==> is_line_break(#[trigger] s[i]),
        k < s.len() ==> !is_line_break(s[k]),
    ensures
        lead_breaks(s) == k,
    decreases s.len(),
{
    if s.len() > 0 && is_line_break(s[0]) {
        assert(forall|i: int| 0 <= i < k - 1 ==> s.skip(1)[i] == s[i + 1]);
        if k < s.len() {
            assert(s.skip(1)[k - 1] == s[k]);
        }
        lemma_lead_breaks_is(s.skip(1), k - 1);
    }
}

/// Index of the first occurrence of `x` in `s`, if any.
pub open spec fn find_byte(s: Seq<u8>, x: u8) -> Option<int>
    decreases s.len(),
{
    if s.len() == 0 {
        None
    } else if s[0] == x {
        Some(0int)
    } else {
        match find_byte(s.skip(1), x) {
            None => None,
            Some(i) => Some(i + 1),
        }
    }
}

pub proof fn lemma_find_byte(s: Seq<u8>, x: u8)
    ensures
        match find_byte(s, x) {
            Some(i) => 0 <= i < s.len() && s[i] == x && forall|j: int| 0 <= j < i ==> s[j] != x,
            None => forall|j: int| 0 <= j < s.len() ==> s[j] != x,
        },
    decreases s.len(),
{
    if s.len() > 0 && s[0] != x {
        lemma_find_byte(s.skip(1), x);
        match find_byte(s.skip(1), x) {
            None => {
                assert forall|j: int| 0 <= j < s.len() implies s[j] != x by {
                    if j > 0 {
                        assert(s.skip(1)[j - 1] == s[j]);
                    }
                }
            },
            Some(i) => {
                assert(s.skip(1)[i] == s[i + 1]);
                assert forall|j: int| 0 <= j < i + 1 implies s[j] != x by {
                    if j > 0 {
                        assert(s.skip(1)[j - 1] == s[j]);
                    }
                }
            },
        }
    }
}

/// `find_byte` is pinned down by its characteristic properties.
pub proof fn lemma_find_byte_is(s: Seq<u8>, x: u8, i: int)
    requires
        0 <= i < s.len(),
        s[i] == x,
        forall|j: int| 0 <= j < i ==> s[j] != x,
    ensures
        find_byte(s, x) == Some(i),
    decreases s.len(),
{
    if i > 0 {
        assert(forall|j: int| 0 <= j < i - 1 ==> s.skip(1)[j] == s[j + 1]);
        assert(s.skip(1)[i - 1] == s[i]);
        lemma_find_byte_is(s.skip(1), x, i - 1);
    }
}

pub proof fn lemma_find_byte_none(s: Seq<u8>, x: u8)
    requires
        forall|j: int| 0 <= j < s.len() ==> s[j] != x,
    ensures
        find_byte(s, x) == None::<int>,
    decreases s.len(),
{
    if s.len() > 0 {
        assert(forall|j: int| 0 <= j < s.len() - 1 ==> s.skip(1)[j] == s[j + 1]);
        lemma_find_byte_none(s.skip(1), x);
    }
}

/// Number of occurrences of `x` in `s`.
pub open spec fn count_byte(s: Seq<u8>, x: u8) -> nat
    decreases s.len(),
{
    if s.len() == 0 {
        0
    } else {
        (if s[0] == x {
            1nat
        } else {
            0nat
        }) + count_byte(s.skip(1), x)
    }
}

pub proof fn lemma_count_byte_le(s: Seq<u8>, x: u8)
    ensures
        count_byte(s, x) <= s.len(),
    decreases s.len(),
{
    if s.len() > 0 {
        lemma_count_byte_le(s.skip(1), x);
    }
}

/// Splitting off the prefix up to and including the first occurrence of `x`
/// removes exactly one occurrence.
pub proof fn lemma_count_byte_split(s: Seq<u8>, x: u8, i: int)
    requires
        0 <= i < s.len(),
        s[i] == x,
        forall|j: int| 0 <= j < i ==> s[j] != x,
    ensures
        count_byte(s, x) == 1 + count_byte(s.skip(i + 1), x),
    decreases i,
{
    if i == 0 {
        assert(count_byte(s, x) == 1 + count_byte(s.skip(1), x));
    } else {
        assert(forall|j: int| 0 <= j < i - 1 ==> s.skip(1)[j] == s[j + 1]);
        assert(s.skip(1)[i - 1] == s[i]);
        lemma_count_byte_split(s.skip(1), x, i - 1);
        assert(s.skip(1).skip(i) =~= s.skip(i + 1));
    }
}

/// `s` split at every occurrence of `sep`; always at least one piece, and a
/// trailing separator contributes one empty trailing piece.
pub open spec fn split_all(s: Seq<u8>, sep: u8) -> Seq<Seq<u8>>
    decreases s.len(),
    via split_all_dec
{
    match find_byte(s, sep) {
        None => seq![s],
        Some(i) => seq![s.take(i)] + split_all(s.skip(i + 1), sep),
    }
}

#[via_fn]
proof fn split_all_dec(s: Seq<u8>, sep: u8) {
    lemma_find_byte(s, sep);
}

/// The data elements of a segment whose raw data is `data`: empty data holds
/// no elements at all, otherwise the separator-delimited pieces.
pub open spec fn elements_of(data: Seq<u8>, sep: u8) -> Seq<Seq<u8>> {
    if data.len() == 0 {
        seq![]
    } else {
        split_all(data, sep)
    }
}

pub proof fn lemma_split_all_count(s: Seq<u8>, sep: u8)
    ensures
        split_all(s, sep).len() == count_byte(s, sep) + 1,
    decreases s.len(),
{
    lemma_find_byte(s, sep);
    match find_byte(s, sep) {
        None => {
            if s.len() > 0 {
                lemma_count_none(s, sep);
            }
        },
        Some(i) => {
            lemma_count_byte_split(s, sep, i);
            lemma_split_all_count(s.skip(i + 1), sep);
        },
    }
}

proof fn lemma_count_none(s: Seq<u8>, x: u8)
    requires
        forall|j: int| 0 <= j < s.len() ==> s[j] != x,
    ensures
        count_byte(s, x) == 0,
    decreases s.len(),
{
    if s.len() > 0 {
        assert(forall|j: int| 0 <= j < s.len() - 1 ==> s.skip(1)[j] == s[j + 1]);
        lemma_count_none(s.skip(1), x);
    }
}

/// Element-count law: non-empty data splits into one element per separator
/// occurrence plus one, and empty data holds no element at all.
pub proof fn lemma_element_count_law(data: Seq<u8>, sep: u8)
    ensures
        data.len() > 0 ==> elements_of(data, sep).len() == count_byte(data, sep) + 1,
        data.len() == 0 ==> elements_of(data, sep).len() == 0,
{
    if data.len() > 0 {
        lemma_split_all_count(data, sep);
    }
}

/// The pieces an element iterator positioned at `pos` has yet to hand out:
/// the same splitting as `split_all`, resumed mid-way.
pub open spec fn tail_elems(data: Seq<u8>, sep: u8, pos: int) -> Seq<Seq<u8>>
    decreases data.len() - pos,
    via tail_elems_dec
{
    if pos < 0 || pos > data.len() {
        seq![]
    } else if pos == data.len() {
        if pos == 0 {
            seq![]
        } else {
            seq![Seq::<u8>::empty()]
        }
    } else {
        match find_byte(data.skip(pos), sep) {
            Some(i) => seq![data.subrange(pos, pos + i)] + tail_elems(data, sep, pos + i + 1),
            None => seq![data.subrange(pos, data.len() as int)],
        }
    }
}

#[via_fn]
proof fn tail_elems_dec(data: Seq<u8>, sep: u8, pos: int) {
    if 0 <= pos < data.len() {
        lemma_find_byte(data.skip(pos), sep);
    }
}

proof fn lemma_tail_elems_split(data: Seq<u8>, sep: u8, pos: int)
    requires
        0 <= pos < data.len(),
    ensures
        tail_elems(data, sep, pos) == split_all(data.skip(pos), sep),
    decreases data.len() - pos,
{
    let sub = data.skip(pos);
    lemma_find_byte(sub, sep);
    match find_byte(sub, sep) {
        None => {
            assert(sub =~= data.subrange(pos, data.len() as int));
        },
        Some(i) => {
            assert(sub.take(i) =~= data.subrange(pos, pos + i));
            assert(sub.skip(i + 1) =~= data.skip(pos + i + 1));
            if pos + i + 1 < data.len() {
                lemma_tail_elems_split(data, sep, pos + i + 1);
            } else {
                assert(sub.skip(i + 1).len() == 0);
                lemma_find_byte(sub.skip(i + 1), sep);
                assert(split_all(sub.skip(i + 1), sep) == seq![sub.skip(i + 1)]);
                assert(sub.skip(i + 1) =~= Seq::<u8>::empty());
                assert(tail_elems(data, sep, pos + i + 1) == seq![Seq::<u8>::empty()]);
            }
        },
    }
}

/// A fresh iterator hands out exactly the elements of the data.
pub proof fn lemma_tail_elems_full(data: Seq<u8>, sep: u8)
    ensures
        tail_elems(data, sep, 0) == elements_of(data, sep),
{
    if data.len() > 0 {
        lemma_tail_elems_split(data, sep, 0);
        assert(data.skip(0) =~= data);
    }
}

/// A segment whose data ends in the element separator carries one final empty
/// element.
pub proof fn lemma_trailing_separator(data: Seq<u8>, sep: u8)
    requires
        data.len() > 0,
        data[data.len() - 1] == sep,
    ensures
        elements_of(data, sep).len() > 0,
        elements_of(data, sep).last() == Seq::<u8>::empty(),
    decreases data.len(),
{
    lemma_find_byte(data, sep);
    match find_byte(data, sep) {
        None => {
            assert(false);
        },
        Some(i) => {
            let tail = data.skip(i + 1);
            if i + 1 == data.len() {
                assert(tail.len() == 0);
                assert(find_byte(tail, sep) == None::<int>);
                assert(split_all(tail, sep) == seq![tail]);
                assert(tail =~= Seq::<u8>::empty());
            } else {
                assert(tail[tail.len() - 1] == data[data.len() - 1]);
                lemma_trailing_separator(tail, sep);
            }
        },
    }
}

} // verus!
