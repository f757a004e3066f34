//! Streaming, zero-copy X12 segment parser.
//!
//! The parser is a two-state machine: in the initial state it decodes the
//! fixed-width ISA header and adopts the delimiters the header announces;
//! afterwards it decodes one delimiter-terminated segment after another,
//! skipping line-break runs between segments.  Every segment and element it
//! delivers borrows directly from the caller's buffer.

use vstd::prelude::*;

use crate::scan::{
    elements_of, find_byte, is_line_break, lead_breaks, lemma_find_byte, lemma_find_byte_is,
    lemma_find_byte_none, lemma_lead_breaks, lemma_lead_breaks_is, lemma_split_all_count,
    tail_elems,
};

verus! {

/// The four one-byte delimiters a parse runs under, discovered from the ISA
/// header.
#[derive(Debug, Clone, Copy, PartialEq, Eq, Structural)]
pub struct Delimiters {
    /// Element separator (ISA offset 3, typically `*`).
    pub element: u8,
    /// Sub-element separator (ISA offset 104, typically `:`).
    pub subelement: u8,
    /// Segment terminator (ISA offset 105, typically `~`).
    pub segment: u8,
    /// Repetition separator (first byte of ISA-11, typically `^`).
    pub repetition: u8,
}

impl Default for Delimiters {
    fn default() -> (d: Self)
        ensures
            d == (Delimiters { element: 42u8, subelement: 58u8, segment: 126u8, repetition: 94u8 }),
    {
        Delimiters { element: 42u8, subelement: 58u8, segment: 126u8, repetition: 94u8 }
    }
}

/// What an outside caller can rely on about `core::str::from_utf8` is named
/// here: decoding is a function of the bytes alone.
pub uninterp spec fn utf8_decode(bytes: Seq<u8>) -> Option<Seq<char>>;

/// Relies on core::str::from_utf8: whether the bytes decode, and to which
/// characters, depends on the bytes alone.
#[verifier::external_body]
pub(crate) fn utf8_to_str<'a>(bytes: &'a [u8]) -> (r: Option<&'a str>)
    ensures
        match r {
            Some(s) => utf8_decode(bytes@) == Some(s@),
            None => utf8_decode(bytes@) is None,
        },
{
    core::str::from_utf8(bytes).ok()
}

/// One parsed element: a borrowed byte range with no interpretation.
#[derive(Debug, Clone, Copy)]
pub struct Element<'a> {
    data: &'a [u8],
}

impl<'a> View for Element<'a> {
    type V = Seq<u8>;

    closed spec fn view(&self) -> Seq<u8> {
        self.data@
    }
}

impl<'a> Element<'a> {
    pub fn new(data: &'a [u8]) -> (e: Self)
        ensures
            e@ == data@,
    {
        Element { data }
    }

    pub fn as_bytes(&self) -> (r: &'a [u8])
        ensures
            r@ == self@,
    {
        self.data
    }

    pub fn is_empty(&self) -> (r: bool)
        ensures
            r == (self@.len() == 0),
    {
        self.data.len() == 0
    }

    /// The element decoded as UTF-8, if it is valid UTF-8.
    pub fn as_str(&self) -> (r: Option<&'a str>)
        ensures
            match r {
                Some(s) => utf8_decode(self@) == Some(s@),
                None => utf8_decode(self@) is None,
            },
    {
        utf8_to_str(self.data)
    }

    /// Split the element at every occurrence of `separator`; a trailing
    /// separator yields one empty trailing component.
    pub fn split_components(&self, separator: u8) -> (it: ComponentIter<'a>)
        ensures
            it.remaining() == elements_of(self@, separator),
    {
        let it = ComponentIter { data: self.data, separator, pos: 0, done: false };
        proof {
            crate::scan::lemma_tail_elems_full(self.data@, separator);
        }
        it
    }
}

/// Iterator over the components of one element.
pub struct ComponentIter<'a> {
    data: &'a [u8],
    separator: u8,
    pos: usize,
    done: bool,
}

impl<'a> ComponentIter<'a> {
    /// The components not yet handed out.
    pub closed spec fn remaining(&self) -> Seq<Seq<u8>> {
        if self.done {
            Seq::empty()
        } else {
            tail_elems(self.data@, self.separator, self.pos as int)
        }
    }

    /// Hand out the next component, if one is left.
    pub fn next(&mut self) -> (r: Option<&'a [u8]>)
        ensures
            match r {
                None => old(self).remaining() == Seq::<Seq<u8>>::empty()
                    && final(self).remaining() == Seq::<Seq<u8>>::empty(),
                Some(c) => old(self).remaining().len() > 0 && c@ == old(self).remaining()[0]
                    && final(self).remaining() == old(self).remaining().skip(1),
            },
    {
        if self.done {
            return None;
        }
        let len = self.data.len();
        if self.pos > len {
            self.done = true;
            return None;
        }
        if self.pos == len {
            self.done = true;
            if len == 0 {
                return None;
            }
            // A separator ended the data: one empty trailing component.
            let piece = vstd::slice::slice_subrange(self.data, len, len);
            assert(self.remaining() =~= old(self).remaining().skip(1));
            return Some(piece);
        }
        let mut i = self.pos;
        while i < len && *vstd::slice::slice_index_get(self.data, i) != self.separator
            invariant
                self.pos <= i <= len,
                len == self.data@.len(),
                forall|j: int| self.pos <= j < i ==> self.data@[j] != self.separator,
            decreases len - i,
        {
            i = i + 1;
        }
        let ghost sub = self.data@.skip(self.pos as int);
        if i < len {
            proof {
                assert(sub[i - self.pos] == self.data@[i as int]);
                assert(forall|j: int| 0 <= j < i - self.pos ==> sub[j] == self.data@[j + self.pos]);
                lemma_find_byte_is(sub, self.separator, i - self.pos);
            }
            let piece = vstd::slice::slice_subrange(self.data, self.pos, i);
            let ghost prev = *self;
            self.pos = i + 1;
            proof {
                assert(piece@ =~= sub.subrange(0, i - prev.pos));
                assert(prev.remaining() == seq![self.data@.subrange(prev.pos as int, i as int)]
                    + tail_elems(self.data@, self.separator, i + 1));
                assert(self.remaining() =~= prev.remaining().skip(1));
                assert(piece@ =~= prev.remaining()[0]);
            }
            Some(piece)
        } else {
            proof {
                assert(forall|j: int| 0 <= j < sub.len() ==> sub[j] == self.data@[j + self.pos]);
                lemma_find_byte_none(sub, self.separator);
            }
            let piece = vstd::slice::slice_subrange(self.data, self.pos, len);
            let ghost prev = *self;
            self.done = true;
            proof {
                assert(piece@ =~= self.data@.subrange(prev.pos as int, len as int));
                assert(prev.remaining() == seq![self.data@.subrange(prev.pos as int, len as int)]);
                assert(self.remaining() =~= prev.remaining().skip(1));
            }
            Some(piece)
        }
    }
}

/// Iterator over the data elements of a segment.
pub struct ElementIter<'a> {
    inner: ComponentIter<'a>,
}

impl<'a> ElementIter<'a> {
    /// The elements not yet handed out.
    pub closed spec fn remaining(&self) -> Seq<Seq<u8>> {
        self.inner.remaining()
    }

    /// Hand out the next element, if one is left.
    pub fn next(&mut self) -> (r: Option<Element<'a>>)
        ensures
            match r {
                None => old(self).remaining() == Seq::<Seq<u8>>::empty()
                    && final(self).remaining() == Seq::<Seq<u8>>::empty(),
                Some(e) => old(self).remaining().len() > 0 && e@ == old(self).remaining()[0]
                    && final(self).remaining() == old(self).remaining().skip(1),
            },
    {
        match self.inner.next() {
            Some(bytes) => Some(Element::new(bytes)),
            None => None,
        }
    }
}

/// The mathematical content of one delivered segment: its identifier bytes,
/// its raw data bytes, and the delimiters it was parsed under.
pub ghost struct SegView {
    pub id: Seq<u8>,
    pub data: Seq<u8>,
    pub delimiters: Delimiters,
}

impl SegView {
    /// The data elements of this segment.
    pub open spec fn elems(self) -> Seq<Seq<u8>> {
        elements_of(self.data, self.delimiters.element)
    }

    /// The bytes this segment occupied in the input: identifier, then for a
    /// segment with data one element separator and the data, then the
    /// terminator.
    pub open spec fn rendered(self) -> Seq<u8> {
        if self.data.len() == 0 {
            self.id + seq![self.delimiters.segment]
        } else {
            self.id + seq![self.delimiters.element] + self.data + seq![self.delimiters.segment]
        }
    }
}

/// One parsed segment: a borrowed identifier, borrowed raw data, and the
/// delimiters in effect.  Element iteration is lazy and zero-copy.
#[derive(Debug)]
pub struct Segment<'a> {
    /// Segment identifier bytes (`ISA`, `GS`, `NM1`, ...).
    pub id: &'a [u8],
    data: &'a [u8],
    /// Delimiter configuration this segment was parsed under.
    pub delimiters: Delimiters,
}

impl<'a> View for Segment<'a> {
    type V = SegView;

    closed spec fn view(&self) -> SegView {
        SegView { id: self.id@, data: self.data@, delimiters: self.delimiters }
    }
}

impl<'a> Segment<'a> {
    fn new(id: &'a [u8], data: &'a [u8], delimiters: Delimiters) -> (s: Self)
        ensures
            s@ == (SegView { id: id@, data: data@, delimiters }),
    {
        Segment { id, data, delimiters }
    }

    /// The raw identifier bytes.
    pub fn id_bytes(&self) -> (r: &'a [u8])
        ensures
            r@ == self@.id,
    {
        self.id
    }

    /// The segment identifier decoded as UTF-8, if it is valid UTF-8.
    pub fn id_str(&self) -> (r: Option<&'a str>)
        ensures
            match r {
                Some(s) => utf8_decode(self@.id) == Some(s@),
                None => utf8_decode(self@.id) is None,
            },
    {
        utf8_to_str(self.id)
    }

    /// Iterate over the data elements in order.
    pub fn elements(&self) -> (it: ElementIter<'a>)
        ensures
            it.remaining() == self@.elems(),
    {
        let inner = ComponentIter {
            data: self.data,
            separator: self.delimiters.element,
            pos: 0,
            done: false,
        };
        proof {
            crate::scan::lemma_tail_elems_full(self.data@, self.delimiters.element);
        }
        ElementIter { inner }
    }

    /// Element by X12 element number: number 0 is the segment identifier
    /// itself, numbers 1 and up are the data elements in order.
    pub fn element(&self, element_number: usize) -> (r: Option<Element<'a>>)
        ensures
            element_number == 0 ==> (r matches Some(e) && e@ == self@.id),
            1 <= element_number <= self@.elems().len() ==> (r matches Some(e) && e@
                == self@.elems()[element_number - 1]),
            element_number > self@.elems().len() ==> r is None,
    {
        if element_number == 0 {
            return Some(Element::new(self.id));
        }
        let ghost elems = self@.elems();
        let mut it = self.elements();
        let mut skipped: usize = 0;
        while skipped + 1 < element_number
            invariant
                skipped < element_number,
                it.remaining() == if skipped <= elems.len() {
                    elems.skip(skipped as int)
                } else {
                    Seq::<Seq<u8>>::empty()
                },
            decreases element_number - skipped,
        {
            let _ = it.next();
            proof {
                if skipped < elems.len() {
                    assert(elems.skip(skipped as int).skip(1) =~= elems.skip(skipped + 1));
                } else if skipped == elems.len() {
                    assert(elems.skip(skipped as int).len() == 0);
                }
            }
            skipped = skipped + 1;
        }
        proof {
            if element_number <= elems.len() {
                assert(elems.skip(element_number - 1)[0] == elems[element_number - 1]);
            }
        }
        it.next()
    }

    /// Number of elements under X12 numbering: the data elements plus one for
    /// the identifier.
    pub fn element_count(&self) -> (n: usize)
        requires
            self@.data.len() + 2 <= usize::MAX,
        ensures
            n == self@.elems().len() + 1,
    {
        proof {
            if self@.data.len() > 0 {
                lemma_split_all_count(self@.data, self@.delimiters.element);
                crate::scan::lemma_count_byte_le(self@.data, self@.delimiters.element);
            }
        }
        let ghost elems = self@.elems();
        let mut it = self.elements();
        let mut n: usize = 1;
        loop
            invariant_except_break
                1 <= n,
                n + it.remaining().len() == 1 + elems.len(),
                elems.len() <= self@.data.len() + 1,
                self@.data.len() + 2 <= usize::MAX,
            ensures
                n == 1 + elems.len(),
            decreases it.remaining().len(),
        {
            match it.next() {
                Some(_) => {
                    n = n + 1;
                },
                None => {
                    break;
                },
            }
        }
        n
    }
}

/// A call never consumes more than it was given.
pub proof fn lemma_run_used_le(p: SegmentParser, b: Seq<u8>)
    ensures
        run(p, b).used <= b.len(),
    decreases b.len(),
{
    let k = lead_breaks(b);
    let rest = b.skip(k as int);
    lemma_lead_breaks(b);
    if rest.len() != 0 {
        match p {
            SegmentParser::Initial => {
                if isa_step(rest) is Seg {
                    lemma_run_used_le(
                        SegmentParser::Processing(isa_step(rest)->Seg_1),
                        rest.skip(106),
                    );
                }
            },
            SegmentParser::Processing(d) => {
                lemma_find_byte(rest, d.segment);
                if reg_step(rest, d) is Seg {
                    let c = reg_step(rest, d)->Seg_1;
                    lemma_run_used_le(p, rest.skip(c as int));
                }
            },
        }
    }
}

/// A byte sequence made of line breaks only.
pub open spec fn is_breaks(s: Seq<u8>) -> bool {
    forall|i: int| 0 <= i < s.len() ==> is_line_break(#[trigger] s[i])
}

/// Interleave ignored line-break runs with rendered segments: one run before
/// each segment and one after the last.
pub open spec fn weave(runs: Seq<Seq<u8>>, segs: Seq<SegView>) -> Seq<u8>
    decreases segs.len(),
{
    if runs.len() == 0 {
        Seq::empty()
    } else if segs.len() == 0 {
        runs[0]
    } else {
        runs[0] + segs[0].rendered() + weave(runs.skip(1), segs.skip(1))
    }
}

/// Total length of the rendered segments.
pub open spec fn total_rendered(segs: Seq<SegView>) -> nat
    decreases segs.len(),
{
    if segs.len() == 0 {
        0
    } else {
        segs[0].rendered().len() + total_rendered(segs.skip(1))
    }
}

/// Total length of a sequence of byte runs.
pub open spec fn total_len(runs: Seq<Seq<u8>>) -> nat
    decreases runs.len(),
{
    if runs.len() == 0 {
        0
    } else {
        runs[0].len() + total_len(runs.skip(1))
    }
}

proof fn lemma_weave_len(runs: Seq<Seq<u8>>, segs: Seq<SegView>)
    requires
        runs.len() == segs.len() + 1,
    ensures
        weave(runs, segs).len() == total_len(runs) + total_rendered(segs),
    decreases segs.len(),
{
    if segs.len() > 0 {
        lemma_weave_len(runs.skip(1), segs.skip(1));
        assert(total_len(runs) == runs[0].len() + total_len(runs.skip(1)));
        assert(runs.skip(1).len() == segs.skip(1).len() + 1);
        assert(runs.skip(1).len() > 0);
    } else {
        assert(total_len(runs) == runs[0].len() + total_len(runs.skip(1)));
        assert(runs.skip(1).len() == 0);
    }
}

/// A decoded ISA header renders back to exactly the 106 bytes it came from.
proof fn lemma_isa_rendered(rest: Seq<u8>)
    requires
        isa_step(rest) is Seg,
    ensures
        ({
            let sv = isa_step(rest)->Seg_0;
            &&& sv.rendered() == rest.take(106)
            &&& sv.rendered().len() == 106
        }),
{
    let sv = isa_step(rest)->Seg_0;
    assert(sv.data.len() == 101);
    assert(sv.rendered() =~= rest.take(106));
}

/// A decoded regular segment renders back to exactly the bytes it consumed,
/// unless its payload was just the identifier and one dangling element
/// separator (the view cannot tell that payload from a bare identifier).
proof fn lemma_reg_rendered(rest: Seq<u8>, d: Delimiters)
    requires
        reg_step(rest, d) is Seg,
    ensures
        ({
            let sv = reg_step(rest, d)->Seg_0;
            let c = reg_step(rest, d)->Seg_1;
            &&& 1 <= c <= rest.len()
            &&& (sv.rendered().len() == c ==> sv.rendered() == rest.take(c as int))
        }),
{
    lemma_find_byte(rest, d.segment);
    let t = find_byte(rest, d.segment)->Some_0;
    let payload = rest.take(t);
    lemma_find_byte(payload, d.element);
    let sv = reg_step(rest, d)->Seg_0;
    let c = reg_step(rest, d)->Seg_1;
    match find_byte(payload, d.element) {
        Some(i) => {
            assert(payload[i] == rest[i]);
            assert(sv.data.len() == t - i - 1);
            if sv.data.len() > 0 {
                assert(sv.rendered() =~= rest.take(t + 1));
            }
        },
        None => {
            assert(sv.data.len() == 0);
            assert(sv.id == rest.subrange(0, t));
            assert(rest[t] == d.segment);
            assert(sv.rendered() == sv.id + seq![d.segment]);
            assert(sv.rendered() =~= rest.take(t + 1));
        },
    }
}

/// No segment in the parse has a payload that is just the identifier and
/// one dangling element separator: such a payload and a bare identifier
/// yield the same segment view, so only parses without one read back
/// verbatim.
pub open spec fn render_exact(p: SegmentParser, b: Seq<u8>) -> bool
    decreases b.len(),
    via render_exact_dec
{
    let k = lead_breaks(b);
    let rest = b.skip(k as int);
    if rest.len() == 0 {
        true
    } else {
        match p {
            SegmentParser::Initial => match isa_step(rest) {
                IsaOut::Seg(sv, d) => render_exact(SegmentParser::Processing(d), rest.skip(106)),
                _ => true,
            },
            SegmentParser::Processing(d) => match reg_step(rest, d) {
                RegOut::Seg(sv, c) => sv.rendered().len() == c && render_exact(
                    p,
                    rest.skip(c as int),
                ),
                _ => true,
            },
        }
    }
}

#[via_fn]
proof fn render_exact_dec(p: SegmentParser, b: Seq<u8>) {
    lemma_lead_breaks(b);
    let k = lead_breaks(b);
    let rest = b.skip(k as int);
    if rest.len() != 0 {
        match p {
            SegmentParser::Processing(d) => {
                lemma_find_byte(rest, d.segment);
            },
            SegmentParser::Initial => {
            },
        }
    }
}

/// Round-trip reconstruction: a completed parse consumed exactly an
/// interleaving of ignored line-break runs and the delivered segments, each
/// rendered with its recorded delimiters.
pub proof fn lemma_round_trip(p: SegmentParser, b: Seq<u8>)
    requires
        run(p, b).end is Complete,
        render_exact(p, b),
    ensures
        exists|runs: Seq<Seq<u8>>|
            #![trigger weave(runs, run(p, b).segs)]
            {
                &&& runs.len() == run(p, b).segs.len() + 1
                &&& (forall|i: int| 0 <= i < runs.len() ==> is_breaks(#[trigger] runs[i]))
                &&& b.take(run(p, b).used as int) == weave(runs, run(p, b).segs)
            },
    decreases b.len(),
{
    let r = run(p, b);
    let k = lead_breaks(b);
    let rest = b.skip(k as int);
    lemma_lead_breaks(b);
    assert(forall|j: int| 0 <= j < rest.len() ==> rest[j] == b[j + k]);
    let nl0 = b.take(k as int);
    assert(is_breaks(nl0));
    if rest.len() == 0 {
        let runs = seq![nl0];
        assert(b.take(r.used as int) == weave(runs, r.segs));
        assert(runs.len() == r.segs.len() + 1 && (forall|i: int|
            0 <= i < runs.len() ==> is_breaks(#[trigger] runs[i])) && b.take(r.used as int)
            == weave(runs, r.segs));
    } else {
        match p {
            SegmentParser::Initial => {
                match isa_step(rest) {
                    IsaOut::Seg(sv, d) => {
                        lemma_isa_rendered(rest);
                        let t = run(SegmentParser::Processing(d), rest.skip(106));
                        if t.end is Failed {
                            assert(false);
                        } else if t.end is NeedMore {
                            lemma_run_needmore(SegmentParser::Processing(d), rest.skip(106));
                            let runs = seq![nl0, Seq::<u8>::empty()];
                            assert(r.segs =~= seq![sv]);
                            assert(weave(runs, r.segs) == nl0 + sv.rendered() + weave(
                                runs.skip(1),
                                r.segs.skip(1),
                            ));
                            assert(runs.skip(1) =~= seq![Seq::<u8>::empty()]);
                            assert(r.segs.skip(1) =~= Seq::<SegView>::empty());
                            assert(weave(runs.skip(1), r.segs.skip(1)) == Seq::<u8>::empty());
                            assert(b.take(r.used as int) =~= nl0 + rest.take(106)
                                + Seq::<u8>::empty());
                            assert(b.take(r.used as int) == weave(runs, r.segs));
                            assert(runs.len() == r.segs.len() + 1 && (forall|i: int|
                                0 <= i < runs.len() ==> is_breaks(#[trigger] runs[i])) && b.take(
                                r.used as int,
                            ) == weave(runs, r.segs));
                        } else {
                            lemma_round_trip(SegmentParser::Processing(d), rest.skip(106));
                            let tb = rest.skip(106);
                            lemma_run_used_le(SegmentParser::Processing(d), tb);
                            assert(forall|j: int| 0 <= j < tb.len() ==> tb[j] == rest[j + 106]);
                            let runs_t = choose|runs_t: Seq<Seq<u8>>|
                                #![trigger weave(runs_t, t.segs)]
                                {
                                    &&& runs_t.len() == t.segs.len() + 1
                                    &&& (forall|i: int|
                                        0 <= i < runs_t.len() ==> is_breaks(
                                            #[trigger] runs_t[i],
                                        ))
                                    &&& tb.take(t.used as int) == weave(runs_t, t.segs)
                                };
                            let runs = seq![nl0] + runs_t;
                            assert(runs.skip(1) =~= runs_t);
                            assert(r.segs.skip(1) =~= t.segs);
                            assert(weave(runs, r.segs) == nl0 + sv.rendered() + weave(
                                runs_t,
                                t.segs,
                            ));
                            assert(b.take(r.used as int) =~= nl0 + rest.take(106) + tb.take(
                                t.used as int,
                            ));
                            assert(forall|i: int|
                                0 <= i < runs.len() ==> is_breaks(#[trigger] runs[i]));
                            assert(runs.len() == r.segs.len() + 1 && (forall|i: int|
                                0 <= i < runs.len() ==> is_breaks(#[trigger] runs[i])) && b.take(
                                r.used as int,
                            ) == weave(runs, r.segs));
                        }
                    },
                    _ => {
                        assert(false);
                    },
                }
            },
            SegmentParser::Processing(d) => {
                match reg_step(rest, d) {
                    RegOut::NeedMore => {
                        assert(k > 0);
                        let runs = seq![nl0];
                        assert(b.take(r.used as int) == weave(runs, r.segs));
                        assert(runs.len() == r.segs.len() + 1 && (forall|i: int|
                            0 <= i < runs.len() ==> is_breaks(#[trigger] runs[i])) && b.take(
                            r.used as int,
                        ) == weave(runs, r.segs));
                    },
                    RegOut::Fail(_) => {
                        assert(false);
                    },
                    RegOut::Seg(sv, c) => {
                        lemma_reg_rendered(rest, d);
                        let t = run(p, rest.skip(c as int));
                        if t.end is Failed {
                            assert(false);
                        } else if t.end is NeedMore {
                            lemma_run_needmore(p, rest.skip(c as int));
                            let runs = seq![nl0, Seq::<u8>::empty()];
                            assert(r.segs =~= seq![sv]);
                            assert(runs.skip(1) =~= seq![Seq::<u8>::empty()]);
                            assert(r.segs.skip(1) =~= Seq::<SegView>::empty());
                            assert(weave(runs.skip(1), r.segs.skip(1)) == Seq::<u8>::empty());
                            assert(b.take(r.used as int) =~= nl0 + rest.take(c as int)
                                + Seq::<u8>::empty());
                            assert(runs.len() == r.segs.len() + 1 && (forall|i: int|
                                0 <= i < runs.len() ==> is_breaks(#[trigger] runs[i])) && b.take(
                                r.used as int,
                            ) == weave(runs, r.segs));
                        } else {
                            lemma_round_trip(p, rest.skip(c as int));
                            let tb = rest.skip(c as int);
                            lemma_run_used_le(p, tb);
                            assert(forall|j: int| 0 <= j < tb.len() ==> tb[j] == rest[j + c]);
                            let runs_t = choose|runs_t: Seq<Seq<u8>>|
                                #![trigger weave(runs_t, t.segs)]
                                {
                                    &&& runs_t.len() == t.segs.len() + 1
                                    &&& (forall|i: int|
                                        0 <= i < runs_t.len() ==> is_breaks(
                                            #[trigger] runs_t[i],
                                        ))
                                    &&& tb.take(t.used as int) == weave(runs_t, t.segs)
                                };
                            let runs = seq![nl0] + runs_t;
                            assert(runs.skip(1) =~= runs_t);
                            assert(r.segs.skip(1) =~= t.segs);
                            assert(weave(runs, r.segs) == nl0 + sv.rendered() + weave(
                                runs_t,
                                t.segs,
                            ));
                            assert(b.take(r.used as int) =~= nl0 + rest.take(c as int) + tb.take(
                                t.used as int,
                            ));
                            assert(forall|i: int|
                                0 <= i < runs.len() ==> is_breaks(#[trigger] runs[i]));
                            assert(runs.len() == r.segs.len() + 1 && (forall|i: int|
                                0 <= i < runs.len() ==> is_breaks(#[trigger] runs[i])) && b.take(
                                r.used as int,
                            ) == weave(runs, r.segs));
                        }
                    },
                }
            },
        }
    }
}

/// Byte accounting: a completed parse consumed exactly the rendered lengths
/// of the delivered segments plus the skipped line-break bytes.
pub proof fn lemma_consumed_accounting(p: SegmentParser, b: Seq<u8>)
    requires
        run(p, b).end is Complete,
        render_exact(p, b),
    ensures
        exists|runs: Seq<Seq<u8>>|
            #![trigger total_len(runs)]
            {
                &&& runs.len() == run(p, b).segs.len() + 1
                &&& (forall|i: int| 0 <= i < runs.len() ==> is_breaks(#[trigger] runs[i]))
                &&& run(p, b).used == total_rendered(run(p, b).segs) + total_len(runs)
            },
{
    let r = run(p, b);
    lemma_round_trip(p, b);
    let runs = choose|runs: Seq<Seq<u8>>|
        {
            &&& runs.len() == r.segs.len() + 1
            &&& (forall|i: int| 0 <= i < runs.len() ==> is_breaks(#[trigger] runs[i]))
            &&& b.take(r.used as int) == #[trigger] weave(runs, r.segs)
        };
    lemma_weave_len(runs, r.segs);
    lemma_run_used_le(p, b);
    assert(b.take(r.used as int).len() == r.used);
}

/// No delivered segment identifier is empty or begins with a line-break
/// byte: a line-break run is always absorbed before the next identifier is
/// recognized, however the input was chunked.
pub proof fn lemma_ids_clean(p: SegmentParser, b: Seq<u8>)
    ensures
        forall|i: int|
            0 <= i < run(p, b).segs.len() ==> (#[trigger] run(p, b).segs[i]).id.len() > 0
                && !is_line_break(run(p, b).segs[i].id[0]),
    decreases b.len(),
{
    let r = run(p, b);
    let k = lead_breaks(b);
    let rest = b.skip(k as int);
    lemma_lead_breaks(b);
    if rest.len() > 0 {
        match p {
            SegmentParser::Initial => {
                if isa_step(rest) is Seg {
                    let d = isa_step(rest)->Seg_1;
                    let sv = isa_step(rest)->Seg_0;
                    lemma_ids_clean(SegmentParser::Processing(d), rest.skip(106));
                    let t = run(SegmentParser::Processing(d), rest.skip(106));
                    if !(t.end is Failed) || t.end is Failed {
                        assert forall|i: int| 0 <= i < r.segs.len() implies (
                        #[trigger] r.segs[i]).id.len() > 0 && !is_line_break(r.segs[i].id[0]) by {
                            if i == 0 {
                                assert(r.segs[0] == sv);
                                assert(sv.id == seq![73u8, 83u8, 65u8]);
                                assert(sv.id[0] == 73u8);
                            } else {
                                assert(r.segs[i] == t.segs[i - 1]);
                            }
                        }
                    }
                }
            },
            SegmentParser::Processing(d) => {
                if reg_step(rest, d) is Seg {
                    let sv = reg_step(rest, d)->Seg_0;
                    let c = reg_step(rest, d)->Seg_1;
                    lemma_find_byte(rest, d.segment);
                    lemma_ids_clean(p, rest.skip(c as int));
                    let t = run(p, rest.skip(c as int));
                    assert(rest[0] == b[k as int]);
                    assert(!is_line_break(rest[0]));
                    let t0 = find_byte(rest, d.segment)->Some_0;
                    let payload = rest.take(t0);
                    lemma_find_byte(payload, d.element);
                    let id_end: int = match find_byte(payload, d.element) {
                        Some(x) => x,
                        None => t0,
                    };
                    assert(id_end >= 1);
                    assert(sv.id == rest.subrange(0, id_end));
                    assert(r.segs == seq![sv] + t.segs);
                    assert forall|i: int| 0 <= i < r.segs.len() implies (
                    #[trigger] r.segs[i]).id.len() > 0 && !is_line_break(r.segs[i].id[0]) by {
                        if i == 0 {
                            assert(r.segs[0] == sv);
                            assert(sv.id[0] == rest[0]);
                        } else {
                            assert(r.segs[i] == t.segs[i - 1]);
                        }
                    }
                }
            },
        }
    }
}

/// `needle` occurs as a contiguous substring of `hay`.
pub open spec fn sub_of(needle: Seq<u8>, hay: Seq<u8>) -> bool {
    exists|o: int|
        0 <= o && o + needle.len() <= hay.len() && needle == #[trigger] hay.subrange(
            o,
            o + needle.len(),
        )
}

proof fn lemma_sub_of(needle: Seq<u8>, hay: Seq<u8>, o: int)
    requires
        0 <= o,
        o + needle.len() <= hay.len(),
        needle == hay.subrange(o, o + needle.len()),
    ensures
        sub_of(needle, hay),
{
}

proof fn lemma_sub_of_skip(needle: Seq<u8>, hay: Seq<u8>, m: int)
    requires
        0 <= m <= hay.len(),
        sub_of(needle, hay.skip(m)),
    ensures
        sub_of(needle, hay),
{
    let tb = hay.skip(m);
    let o = choose|o: int|
        0 <= o && o + needle.len() <= tb.len() && needle == #[trigger] tb.subrange(
            o,
            o + needle.len(),
        );
    assert(tb.subrange(o, o + needle.len()) =~= hay.subrange(m + o, m + o + needle.len()));
    lemma_sub_of(needle, hay, m + o);
}

/// Zero-copy law: the identifier and the data of every delivered segment are
/// exact substrings of the parsed input.
pub proof fn lemma_zero_copy(p: SegmentParser, b: Seq<u8>)
    ensures
        forall|i: int|
            0 <= i < run(p, b).segs.len() ==> sub_of((#[trigger] run(p, b).segs[i]).id, b)
                && sub_of(run(p, b).segs[i].data, b),
    decreases b.len(),
{
    let r = run(p, b);
    let k = lead_breaks(b);
    let rest = b.skip(k as int);
    lemma_lead_breaks(b);
    assert(forall|j: int| 0 <= j < rest.len() ==> rest[j] == b[j + k]);
    if rest.len() > 0 {
        match p {
            SegmentParser::Initial => {
                if isa_step(rest) is Seg {
                    let sv = isa_step(rest)->Seg_0;
                    let d = isa_step(rest)->Seg_1;
                    let pn = SegmentParser::Processing(d);
                    lemma_zero_copy(pn, rest.skip(106));
                    let t = run(pn, rest.skip(106));
                    assert(rest.skip(106) =~= b.skip(k as int + 106));
                    assert(sv.id =~= b.subrange(k as int, k as int + sv.id.len()));
                    lemma_sub_of(sv.id, b, k as int);
                    assert(sv.data =~= b.subrange(k as int + 4, k as int + 4 + sv.data.len()));
                    lemma_sub_of(sv.data, b, k as int + 4);
                    assert(r.segs == seq![sv] + t.segs);
                    assert forall|i: int| 0 <= i < r.segs.len() implies sub_of(
                        (#[trigger] r.segs[i]).id,
                        b,
                    ) && sub_of(r.segs[i].data, b) by {
                        if i > 0 {
                            assert(r.segs[i] == t.segs[i - 1]);
                            lemma_sub_of_skip(t.segs[i - 1].id, b, k as int + 106);
                            lemma_sub_of_skip(t.segs[i - 1].data, b, k as int + 106);
                        }
                    }
                }
            },
            SegmentParser::Processing(d) => {
                if reg_step(rest, d) is Seg {
                    let sv = reg_step(rest, d)->Seg_0;
                    let c = reg_step(rest, d)->Seg_1;
                    lemma_find_byte(rest, d.segment);
                    let t0 = find_byte(rest, d.segment)->Some_0;
                    let payload = rest.take(t0);
                    lemma_find_byte(payload, d.element);
                    let id_end: int = match find_byte(payload, d.element) {
                        Some(x) => x,
                        None => t0,
                    };
                    lemma_zero_copy(p, rest.skip(c as int));
                    let t = run(p, rest.skip(c as int));
                    assert(rest.skip(c as int) =~= b.skip(k as int + c as int));
                    assert(sv.id =~= b.subrange(k as int, k as int + sv.id.len()));
                    lemma_sub_of(sv.id, b, k as int);
                    if id_end < t0 {
                        assert(sv.data =~= b.subrange(
                            k as int + id_end + 1,
                            k as int + id_end + 1 + sv.data.len(),
                        ));
                        lemma_sub_of(sv.data, b, k as int + id_end + 1);
                    } else {
                        assert(sv.data =~= b.subrange(0, 0int + sv.data.len()));
                        lemma_sub_of(sv.data, b, 0);
                    }
                    assert(r.segs == seq![sv] + t.segs);
                    assert forall|i: int| 0 <= i < r.segs.len() implies sub_of(
                        (#[trigger] r.segs[i]).id,
                        b,
                    ) && sub_of(r.segs[i].data, b) by {
                        if i > 0 {
                            assert(r.segs[i] == t.segs[i - 1]);
                            lemma_sub_of_skip(t.segs[i - 1].id, b, k as int + c as int);
                            lemma_sub_of_skip(t.segs[i - 1].data, b, k as int + c as int);
                        }
                    }
                }
            },
        }
    }
}

/// Delimiter-distinctness law: a 106-byte header with the `ISA` prefix and a
/// present ISA-11 byte decodes exactly when the four announced delimiters —
/// the three at offsets 3, 104 and 105 and the repetition byte — are
/// pairwise distinct.
pub proof fn lemma_delimiter_distinctness(b: Seq<u8>)
    requires
        b.len() >= 106,
        b[0] == 73u8 && b[1] == 83u8 && b[2] == 65u8,
        ({
            let elems = elements_of(b.subrange(4, 105), b[3]);
            elems.len() >= 11 && elems[10].len() > 0
        }),
    ensures
        ({
            let r = elements_of(b.subrange(4, 105), b[3])[10][0];
            isa_step(b) is Seg <==> (b[3] != b[104] && b[3] != b[105] && b[104] != b[105] && r
                != b[3] && r != b[104] && r != b[105])
        }),
{
}

/// Catastrophic condition: parsing cannot continue.
#[derive(Debug, Clone, Copy)]
pub struct Halt {
    /// Human-readable reason.
    pub message: &'static str,
}

impl Halt {
    pub fn new(message: &'static str) -> (h: Self)
        ensures
            h.message == message,
    {
        Halt { message }
    }
}

/// Outcome of a parse call: either more bytes are needed (recoverable) or a
/// structural invariant was violated (not recoverable within this parse).
#[derive(Debug)]
pub enum SegmentParserError {
    /// The remaining bytes hold no complete next segment; supply more bytes
    /// and retry.
    Incomplete,
    /// Structural failure or handler-requested stop.
    Halt(Halt),
}

/// Observer of parsed segments.  The segment view passed to [`handle`] borrows
/// from the parse buffer and is valid only during the call; a handler that
/// wants to keep data copies the bytes out.
///
/// [`handle`]: SegmentHandler::handle
pub trait SegmentHandler {
    /// The segments this handler has acknowledged so far, oldest first.
    spec fn log(&self) -> Seq<SegView>;

    /// Whether this handler promises to acknowledge every segment.
    spec fn never_halts(&self) -> bool;

    /// Whatever well-formedness the handler maintains across calls; a
    /// handler with nothing to maintain uses `true`.
    spec fn wf(&self) -> bool;

    /// The halts this handler may request on a given segment; a handler
    /// that never halts uses `false`.
    spec fn may_halt(&self, segment: SegView, halt: Halt) -> bool;

    /// Observe one segment: acknowledge it, or request an immediate halt.
    fn handle(&mut self, segment: &Segment<'_>) -> (r: Result<(), Halt>)
        ensures
            r is Ok ==> final(self).log() == old(self).log().push(segment@),
            r is Err ==> final(self).log() == old(self).log(),
            r matches Err(h) ==> old(self).may_halt(segment@, h),
            old(self).never_halts() ==> r is Ok && final(self).never_halts(),
            old(self).wf() ==> final(self).wf(),
    ;
}

/// The reasons the parser itself halts.
pub enum FailKind {
    IsaHeader,
    IsaDelimiters,
    IsaRepetition,
    EmptyId,
}

/// The exact message reported for each structural halt.
pub open spec fn fail_text(k: FailKind) -> &'static str {
    match k {
        FailKind::IsaHeader => "Invalid ISA header: first three bytes must be 'ISA'",
        FailKind::IsaDelimiters => "Invalid ISA delimiters: separators must be distinct",
        FailKind::IsaRepetition => "Missing repetition separator in ISA-11",
        FailKind::EmptyId => "Invalid segment: segment ID cannot be empty",
    }
}

/// What decoding an ISA header at the front of `b` yields.
pub enum IsaOut {
    NeedMore,
    Fail(FailKind),
    Seg(SegView, Delimiters),
}

/// Decode the fixed-width 106-byte ISA header at the front of `b`: verify the
/// `ISA` prefix, adopt the three delimiters at offsets 3, 104 and 105, and
/// take the repetition separator from the first byte of ISA-11; all four
/// must be pairwise distinct.
pub open spec fn isa_step(b: Seq<u8>) -> IsaOut {
    if b.len() < 106 {
        IsaOut::NeedMore
    } else if !(b[0] == 73u8 && b[1] == 83u8 && b[2] == 65u8) {
        IsaOut::Fail(FailKind::IsaHeader)
    } else if b[3] == b[104] || b[3] == b[105] || b[104] == b[105] {
        IsaOut::Fail(FailKind::IsaDelimiters)
    } else {
        let data = b.subrange(4, 105);
        let elems = elements_of(data, b[3]);
        if elems.len() < 11 || elems[10].len() == 0 {
            IsaOut::Fail(FailKind::IsaRepetition)
        } else if elems[10][0] == b[3] || elems[10][0] == b[104] || elems[10][0] == b[105] {
            IsaOut::Fail(FailKind::IsaDelimiters)
        } else {
            let d = Delimiters {
                element: b[3],
                subelement: b[104],
                segment: b[105],
                repetition: elems[10][0],
            };
            IsaOut::Seg(SegView { id: seq![73u8, 83u8, 65u8], data, delimiters: d }, d)
        }
    }
}

/// What decoding one regular segment at the front of `b` yields.
pub enum RegOut {
    NeedMore,
    Fail(FailKind),
    Seg(SegView, nat),
}

/// Decode one regular segment at the front of `b`: everything up to the first
/// segment terminator is the payload, the bytes before the first element
/// separator are the identifier, the rest is the data.  The terminator is
/// consumed and never part of the data.
pub open spec fn reg_step(b: Seq<u8>, d: Delimiters) -> RegOut {
    match find_byte(b, d.segment) {
        None => RegOut::NeedMore,
        Some(t) => {
            let payload = b.take(t);
            let id_end = match find_byte(payload, d.element) {
                Some(i) => i,
                None => t,
            };
            if id_end == 0 {
                RegOut::Fail(FailKind::EmptyId)
            } else {
                let data = if id_end < t {
                    b.subrange(id_end + 1, t)
                } else {
                    Seq::<u8>::empty()
                };
                RegOut::Seg(
                    SegView { id: b.subrange(0, id_end), data, delimiters: d },
                    (t + 1) as nat,
                )
            }
        },
    }
}

/// How one `parse_segments` call ends.
pub enum RunEnd {
    /// The call returns the consumed byte count.
    Complete,
    /// Nothing was consumed; the caller must supply more bytes and retry.
    NeedMore,
    /// A structural halt.
    Failed(FailKind),
}

/// Everything one `parse_segments` call does, assuming the handler
/// acknowledges every segment: the segments delivered in order, the bytes
/// consumed, the parser state afterwards, and how the call ends.
pub ghost struct Run {
    pub segs: Seq<SegView>,
    pub used: nat,
    pub state: SegmentParser,
    pub end: RunEnd,
}

/// X12 segment parser: a two-state machine.  The transition from `Initial`
/// to `Processing` is one-way for a parse pass; the delimiters stay fixed
/// once adopted.
#[derive(Debug, Clone, Copy, PartialEq, Eq, Structural)]
pub enum SegmentParser {
    /// No delimiters known yet; the next work is to decode an ISA header.
    Initial,
    /// Delimiters fixed for the rest of the interchange.
    Processing(Delimiters),
}

/// The parse of `b` from state `p`: skip a line-break run, decode one
/// segment, and continue behind it.  A segment left incomplete at the end of
/// `b` turns the call into a success with a partial count when anything was
/// consumed before it, and into `NeedMore` otherwise; in the initial state an
/// incomplete ISA header is always `NeedMore`.
pub open spec fn run(p: SegmentParser, b: Seq<u8>) -> Run
    decreases b.len(),
    via run_dec
{
    let k = lead_breaks(b);
    let rest = b.skip(k as int);
    if rest.len() == 0 {
        Run { segs: seq![], used: k, state: p, end: RunEnd::Complete }
    } else {
        match p {
            SegmentParser::Initial => match isa_step(rest) {
                IsaOut::NeedMore => Run {
                    segs: seq![],
                    used: 0,
                    state: p,
                    end: RunEnd::NeedMore,
                },
                IsaOut::Fail(f) => Run { segs: seq![], used: 0, state: p, end: RunEnd::Failed(f) },
                IsaOut::Seg(sv, d) => {
                    let t = run(SegmentParser::Processing(d), rest.skip(106));
                    match t.end {
                        RunEnd::Failed(f) => Run {
                            segs: seq![sv] + t.segs,
                            used: 0,
                            state: t.state,
                            end: RunEnd::Failed(f),
                        },
                        _ => Run {
                            segs: seq![sv] + t.segs,
                            used: k + 106 + t.used,
                            state: t.state,
                            end: RunEnd::Complete,
                        },
                    }
                },
            },
            SegmentParser::Processing(d) => match reg_step(rest, d) {
                RegOut::NeedMore => if k > 0 {
                    Run { segs: seq![], used: k, state: p, end: RunEnd::Complete }
                } else {
                    Run { segs: seq![], used: 0, state: p, end: RunEnd::NeedMore }
                },
                RegOut::Fail(f) => Run { segs: seq![], used: 0, state: p, end: RunEnd::Failed(f) },
                RegOut::Seg(sv, c) => {
                    let t = run(p, rest.skip(c as int));
                    match t.end {
                        RunEnd::Failed(f) => Run {
                            segs: seq![sv] + t.segs,
                            used: 0,
                            state: t.state,
                            end: RunEnd::Failed(f),
                        },
                        _ => Run {
                            segs: seq![sv] + t.segs,
                            used: k + c + t.used,
                            state: t.state,
                            end: RunEnd::Complete,
                        },
                    }
                },
            },
        }
    }
}

#[via_fn]
proof fn run_dec(p: SegmentParser, b: Seq<u8>) {
    lemma_lead_breaks(b);
    let k = lead_breaks(b);
    let rest = b.skip(k as int);
    if rest.len() != 0 {
        match p {
            SegmentParser::Processing(d) => {
                lemma_find_byte(rest, d.segment);
            },
            SegmentParser::Initial => {
            },
        }
    }
}

/// A call that ends in `NeedMore` consumed nothing, delivered nothing, and
/// left the state alone.
pub proof fn lemma_run_needmore(p: SegmentParser, b: Seq<u8>)
    ensures
        run(p, b).end is NeedMore ==> run(p, b) == (Run {
            segs: seq![],
            used: 0,
            state: p,
            end: RunEnd::NeedMore,
        }),
{
}

impl SegmentParser {
    /// A parser awaiting the ISA header.
    pub fn init() -> (p: Self)
        ensures
            p == SegmentParser::Initial,
    {
        SegmentParser::Initial
    }

    /// Count the line-break bytes at `from`; they separate segments and are
    /// consumed without being part of any segment.
    pub(crate) fn skip_lf_crlf(buffer: &[u8], from: usize) -> (n: usize)
        requires
            from <= buffer@.len(),
        ensures
            n == lead_breaks(buffer@.skip(from as int)),
            from + n <= buffer@.len(),
    {
        let len = buffer.len();
        let mut i = from;
        loop
            invariant_except_break
                from <= i <= len,
                len == buffer@.len(),
                forall|j: int| from <= j < i ==> is_line_break(#[trigger] buffer@[j]),
            ensures
                from <= i <= len,
                forall|j: int| from <= j < i ==> is_line_break(#[trigger] buffer@[j]),
                i < len ==> !is_line_break(buffer@[i as int]),
            decreases len - i,
        {
            if i >= len {
                break;
            }
            let b = *vstd::slice::slice_index_get(buffer, i);
            if b != 10 && b != 13 {
                break;
            }
            i = i + 1;
        }
        proof {
            let sub = buffer@.skip(from as int);
            assert(forall|j: int| 0 <= j < sub.len() ==> sub[j] == buffer@[j + from]);
            lemma_lead_breaks_is(sub, i - from);
        }
        i - from
    }

    /// First occurrence of `x` in `buffer[from..to]`.
    pub(crate) fn find_in(buffer: &[u8], from: usize, to: usize, x: u8) -> (r: Option<usize>)
        requires
            from <= to <= buffer@.len(),
        ensures
            match r {
                Some(i) => from <= i < to && buffer@[i as int] == x && find_byte(
                    buffer@.subrange(from as int, to as int),
                    x,
                ) == Some(i - from),
                None => find_byte(buffer@.subrange(from as int, to as int), x) is None,
            },
    {
        let ghost sub = buffer@.subrange(from as int, to as int);
        proof {
            assert(forall|j: int| 0 <= j < sub.len() ==> sub[j] == buffer@[j + from]);
        }
        let mut i = from;
        while i < to && *vstd::slice::slice_index_get(buffer, i) != x
            invariant
                from <= i <= to,
                to <= buffer@.len(),
                forall|j: int| from <= j < i ==> buffer@[j] != x,
            decreases to - i,
        {
            i = i + 1;
        }
        if i < to {
            proof {
                lemma_find_byte_is(sub, x, i - from);
            }
            Some(i)
        } else {
            proof {
                lemma_find_byte_none(sub, x);
            }
            None
        }
    }

    /// Decode the fixed-width ISA header at `from` and deliver it.  On
    /// success the returned delimiters govern the rest of the interchange and
    /// exactly 106 bytes were consumed.
    pub(crate) fn parse_isa_segment<H: SegmentHandler>(
        buffer: &[u8],
        from: usize,
        handler: &mut H,
    ) -> (r: Result<(usize, Delimiters), SegmentParserError>)
        requires
            from <= buffer@.len(),
        ensures
            old(handler).never_halts() ==> final(handler).never_halts(),
            old(handler).wf() ==> final(handler).wf(),
            match isa_step(buffer@.skip(from as int)) {
                IsaOut::NeedMore => r matches Err(SegmentParserError::Incomplete) && final(handler).log() == old(handler).log(),
                IsaOut::Fail(f) => (r matches Err(SegmentParserError::Halt(h)) && h.message@
                    == fail_text(f)@) && final(handler).log() == old(handler).log(),
                IsaOut::Seg(sv, d) => {
                    &&& (r matches Ok(n) ==> n.0 == 106 && n.1 == d && final(handler).log() == old(handler).log().push(sv))
                    &&& (r is Err ==> (r matches Err(SegmentParserError::Halt(_))) && final(handler).log() == old(handler).log())
                    &&& (r matches Err(e) ==> (e matches SegmentParserError::Halt(h) && old(handler).may_halt(sv, h)))
                    &&& (old(handler).never_halts() ==> r is Ok)
                },
            },
    {
        let ghost rest = buffer@.skip(from as int);
        let len = buffer.len();
        if len - from < 106 {
            return Err(SegmentParserError::Incomplete);
        }
        let b0 = *vstd::slice::slice_index_get(buffer, from);
        let b1 = *vstd::slice::slice_index_get(buffer, from + 1);
        let b2 = *vstd::slice::slice_index_get(buffer, from + 2);
        proof {
            assert(rest[0] == buffer@[from as int]);
            assert(rest[1] == buffer@[from + 1]);
            assert(rest[2] == buffer@[from + 2]);
            assert(rest[3] == buffer@[from + 3]);
            assert(rest[104] == buffer@[from + 104]);
            assert(rest[105] == buffer@[from + 105]);
        }
        if !(b0 == 73 && b1 == 83 && b2 == 65) {
            return Err(
                SegmentParserError::Halt(
                    Halt::new("Invalid ISA header: first three bytes must be 'ISA'"),
                ),
            );
        }
        let elem_sep = *vstd::slice::slice_index_get(buffer, from + 3);
        let sub_sep = *vstd::slice::slice_index_get(buffer, from + 104);
        let term = *vstd::slice::slice_index_get(buffer, from + 105);
        if elem_sep == sub_sep || elem_sep == term || sub_sep == term {
            return Err(
                SegmentParserError::Halt(
                    Halt::new("Invalid ISA delimiters: separators must be distinct"),
                ),
            );
        }
        let data = vstd::slice::slice_subrange(buffer, from + 4, from + 105);
        proof {
            assert(data@ =~= rest.subrange(4, 105));
        }
        let ghost elems = elements_of(data@, elem_sep);
        // The repetition separator is the first byte of ISA-11, the eleventh
        // data element.
        let mut it = ComponentIter { data, separator: elem_sep, pos: 0, done: false };
        proof {
            crate::scan::lemma_tail_elems_full(data@, elem_sep);
        }
        let mut skipped: usize = 0;
        while skipped < 10
            invariant
                skipped <= 10,
                it.remaining() == if skipped <= elems.len() {
                    elems.skip(skipped as int)
                } else {
                    Seq::<Seq<u8>>::empty()
                },
            decreases 10 - skipped,
        {
            let _ = it.next();
            proof {
                if skipped < elems.len() {
                    assert(elems.skip(skipped as int).skip(1) =~= elems.skip(skipped + 1));
                } else if skipped == elems.len() {
                    assert(elems.skip(skipped as int).len() == 0);
                }
            }
            skipped = skipped + 1;
        }
        let rep_elem = it.next();
        proof {
            if 10 < elems.len() {
                assert(elems.skip(10)[0] == elems[10]);
            }
        }
        let repetition: u8;
        match rep_elem {
            Some(c) => {
                if c.len() == 0 {
                    return Err(
                        SegmentParserError::Halt(
                            Halt::new("Missing repetition separator in ISA-11"),
                        ),
                    );
                }
                repetition = *vstd::slice::slice_index_get(c, 0);
            },
            None => {
                return Err(
                    SegmentParserError::Halt(Halt::new("Missing repetition separator in ISA-11")),
                );
            },
        }
        if repetition == elem_sep || repetition == sub_sep || repetition == term {
            return Err(
                SegmentParserError::Halt(
                    Halt::new("Invalid ISA delimiters: separators must be distinct"),
                ),
            );
        }
        let d = Delimiters { element: elem_sep, subelement: sub_sep, segment: term, repetition };
        let id = vstd::slice::slice_subrange(buffer, from, from + 3);
        proof {
            assert(id@ =~= seq![73u8, 83u8, 65u8]);
        }
        let seg = Segment::new(id, data, d);
        match handler.handle(&seg) {
            Ok(()) => Ok((106, d)),
            Err(h) => Err(SegmentParserError::Halt(h)),
        }
    }

    /// Parse segment after segment from `buffer`, delivering each to the
    /// handler in input order, and report the consumed byte count.
    ///
    /// The whole behaviour is pinned by [`run`]: on `Ok(n)`, `n` is the
    /// consumed count and the handler saw exactly the segments of the run;
    /// `Err(Incomplete)` comes exactly when nothing at all could be consumed;
    /// a handler that never halts otherwise receives the run's halt verbatim.
    #[verifier::rlimit(100)]
    pub fn parse_segments<H: SegmentHandler>(
        &mut self,
        buffer: &[u8],
        handler: &mut H,
    ) -> (r: Result<usize, SegmentParserError>)
        ensures
            ({
                let runres = run(*old(self), buffer@);
                &&& (r matches Ok(n) ==> runres.end is Complete && n == runres.used && *final(self)
                    == runres.state && final(handler).log() == old(handler).log() + runres.segs)
                &&& ((r matches Err(e) && e is Incomplete) <==> runres.end is NeedMore)
                &&& ((r matches Err(e) && e is Incomplete) ==> *final(self) == *old(self) && final(handler).log() == old(handler).log())
                &&& (exists|j: int|
                    0 <= j <= runres.segs.len() && final(handler).log() == old(handler).log()
                        + runres.segs.take(j))
                &&& (r matches Err(e) ==> (e matches SegmentParserError::Halt(h) ==> ((
                runres.end matches RunEnd::Failed(f) && h.message@ == fail_text(f)@) || (
                exists|j: int, m: H|
                    #![trigger m.may_halt(runres.segs[j], h)]
                    0 <= j < runres.segs.len() && final(handler).log() == old(handler).log()
                        + runres.segs.take(j) && m.log() == final(handler).log() && m.may_halt(
                        runres.segs[j],
                        h,
                    )))))
                &&& (old(handler).wf() ==> final(handler).wf())
                &&& (old(handler).never_halts() ==> final(handler).never_halts() && final(handler).log() == old(handler).log() + runres.segs && (match runres.end {
                    RunEnd::Complete => r matches Ok(n) && n == runres.used,
                    RunEnd::NeedMore => r matches Err(e) && e is Incomplete,
                    RunEnd::Failed(f) => r matches Err(e) && (e matches SegmentParserError::Halt(h)
                        && h.message@ == fail_text(f)@),
                }) && *final(self) == runres.state)
            }),
    {
        let ghost p0 = *self;
        let ghost runres = run(p0, buffer@);
        let len = buffer.len();
        let mut pos: usize = 0;
        let ghost mut done: int = 0;
        proof {
            assert(buffer@.skip(0int) =~= buffer@);
            assert(runres.segs.take(0) =~= Seq::<SegView>::empty());
            assert(runres.segs =~= runres.segs.take(0) + runres.segs);
            assert(handler.log() =~= old(handler).log() + runres.segs.take(0));
        }
        loop
            invariant
                pos <= len,
                len == buffer@.len(),
                0 <= done <= runres.segs.len(),
                handler.log() == old(handler).log() + runres.segs.take(done),
                old(handler).never_halts() ==> handler.never_halts(),
                old(handler).wf() ==> handler.wf(),
                done == 0 ==> pos == 0 && *self == p0,
                done <= pos,
                (*self) is Initial ==> done == 0,
                done >= 1 ==> (*self) is Processing,
                p0 == *old(self),
                runres == run(p0, buffer@),
                ({
                    let rc = run(*self, buffer@.skip(pos as int));
                    &&& runres.segs == runres.segs.take(done) + rc.segs
                    &&& (rc.end is Complete ==> runres.end is Complete && runres.used == pos
                        + rc.used && runres.state == rc.state)
                    &&& (rc.end is NeedMore ==> (done == 0 && rc == runres) || (done >= 1
                        && runres.end is Complete && runres.used == pos && runres.state == *self))
                    &&& (rc.end matches RunEnd::Failed(f) ==> runres.end == RunEnd::Failed(f)
                        && runres.state == rc.state)
                }),
            decreases len - pos,
        {
            let st = *self;
            let k = Self::skip_lf_crlf(buffer, pos);
            let ghost sfx = buffer@.skip(pos as int);
            let ghost rc = run(st, sfx);
            proof {
                assert(forall|j: int| 0 <= j < sfx.len() ==> sfx[j] == buffer@[j + pos]);
                assert(sfx.skip(lead_breaks(sfx) as int) =~= buffer@.skip(pos + k));
            }
            let ghost rest = sfx.skip(lead_breaks(sfx) as int);
            if pos + k == len {
                proof {
                    assert(rest.len() == 0);
                    assert(rc.segs =~= Seq::<SegView>::empty());
                    assert(rc.used == k && rc.state == st && rc.end is Complete);
                    if done == 0 {
                        assert(buffer@.skip(0int) =~= buffer@);
                        assert(rc == runres);
                    }
                    assert(runres.segs =~= runres.segs.take(done));
                    assert(handler.log() == old(handler).log() + runres.segs);
                }
                return Ok(pos + k);
            }
            proof {
                assert(rest.len() > 0);
            }
            match st {
                SegmentParser::Initial => {
                    proof {
                        assert(done == 0 && pos == 0);
                        assert(buffer@.skip(0int) =~= buffer@);
                        assert(rc == runres);
                    }
                    let ghost hpre = *handler;
                    match Self::parse_isa_segment(buffer, pos + k, handler) {
                        Err(e) => {
                            proof {
                                match isa_step(rest) {
                                    IsaOut::NeedMore => {
                                        assert(e is Incomplete);
                                        assert(rc.end is NeedMore);
                                        lemma_run_needmore(st, sfx);
                                    },
                                    IsaOut::Fail(f) => {
                                        assert(rc.end == RunEnd::Failed(f));
                                    },
                                    IsaOut::Seg(sv, d) => {
                                        assert(e matches SegmentParserError::Halt(_));
                                        assert(!(rc.end is NeedMore));
                                        let t = run(SegmentParser::Processing(d), rest.skip(106));
                                        assert(rc.segs == seq![sv] + t.segs);
                                        assert(runres.segs[done] == sv);
                                        let h = e->Halt_0;
                                        assert(hpre.log() == old(handler).log()
                                            + runres.segs.take(done));
                                        assert(hpre.may_halt(runres.segs[done], h));
                                    },
                                }
                                assert(handler.log() == old(handler).log() + runres.segs.take(0));
                            }
                            return Err(e);
                        },
                        Ok((n, d)) => {
                            let ghost sv = match isa_step(rest) {
                                IsaOut::Seg(sv, _) => sv,
                                _ => arbitrary(),
                            };
                            *self = SegmentParser::Processing(d);
                            proof {
                                assert(rest.skip(106) =~= buffer@.skip(pos + k + 106));
                                let t = run(SegmentParser::Processing(d), rest.skip(106));
                                assert(rc.segs == seq![sv] + t.segs);
                                assert(runres.segs.take(done) + rc.segs == runres.segs);
                                assert(runres.segs[done] == sv);
                                assert(runres.segs.take(done + 1) =~= runres.segs.take(done)
                                    + seq![sv]);
                                assert((old(handler).log() + runres.segs.take(done)).push(sv)
                                    =~= old(handler).log() + runres.segs.take(done + 1));
                                assert(runres.segs =~= runres.segs.take(done + 1) + t.segs);
                                if t.end is NeedMore {
                                    lemma_run_needmore(
                                        SegmentParser::Processing(d),
                                        rest.skip(106),
                                    );
                                }
                                done = done + 1;
                            }
                            pos = pos + k + n;
                        },
                    }
                },
                SegmentParser::Processing(d) => {
                    let ghost hpre = *handler;
                    match Self::parse_regular_segment(buffer, pos + k, d, handler) {
                        Err(SegmentParserError::Incomplete) => {
                            proof {
                                assert(reg_step(rest, d) is NeedMore);
                            }
                            if pos + k > 0 {
                                proof {
                                    if k > 0 {
                                        assert(rc == (Run {
                                            segs: Seq::<SegView>::empty(),
                                            used: k as nat,
                                            state: st,
                                            end: RunEnd::Complete,
                                        }));
                                    } else {
                                        assert(rc.end is NeedMore);
                                        lemma_run_needmore(st, sfx);
                                        assert(done >= 1);
                                    }
                                    assert(runres.segs =~= runres.segs.take(done));
                                }
                                return Ok(pos + k);
                            } else {
                                proof {
                                    assert(pos == 0 && k == 0);
                                    assert(rc.end is NeedMore);
                                    assert(done == 0);
                                    assert(buffer@.skip(0int) =~= buffer@);
                                    assert(rc == runres);
                                    assert(runres.segs =~= runres.segs.take(0));
                                }
                                return Err(SegmentParserError::Incomplete);
                            }
                        },
                        Err(SegmentParserError::Halt(h)) => {
                            proof {
                                match reg_step(rest, d) {
                                    RegOut::NeedMore => {
                                        assert(false);
                                    },
                                    RegOut::Fail(f) => {
                                        assert(rc.end == RunEnd::Failed(f));
                                    },
                                    RegOut::Seg(sv, c) => {
                                        lemma_find_byte(rest, d.segment);
                                        let t = run(st, rest.skip(c as int));
                                        assert(match t.end {
                                            RunEnd::Failed(f) => rc.end == RunEnd::Failed(f),
                                            _ => rc.end is Complete,
                                        });
                                        assert(!(rc.end is NeedMore));
                                        assert(rc.segs == seq![sv] + t.segs);
                                        assert(runres.segs[done] == sv);
                                        assert(hpre.log() == old(handler).log()
                                            + runres.segs.take(done));
                                        assert(hpre.may_halt(runres.segs[done], h));
                                    },
                                }
                                if done == 0 {
                                    assert(buffer@.skip(0int) =~= buffer@);
                                    assert(rc == runres);
                                }
                                assert(!(runres.end is NeedMore));
                                assert(handler.log() == old(handler).log()
                                    + runres.segs.take(done));
                            }
                            return Err(SegmentParserError::Halt(h));
                        },
                        Ok(c) => {
                            let ghost sv = match reg_step(rest, d) {
                                RegOut::Seg(sv, _) => sv,
                                _ => arbitrary(),
                            };
                            proof {
                                lemma_find_byte(rest, d.segment);
                                assert(c <= rest.len());
                                assert(rest.skip(c as int) =~= buffer@.skip(pos + k + c));
                                let t = run(st, rest.skip(c as int));
                                assert(rc.segs == seq![sv] + t.segs);
                                assert(runres.segs[done] == sv);
                                assert(runres.segs.take(done + 1) =~= runres.segs.take(done)
                                    + seq![sv]);
                                assert((old(handler).log() + runres.segs.take(done)).push(sv)
                                    =~= old(handler).log() + runres.segs.take(done + 1));
                                assert(runres.segs =~= runres.segs.take(done + 1) + t.segs);
                                if t.end is NeedMore {
                                    lemma_run_needmore(st, rest.skip(c as int));
                                }
                                done = done + 1;
                            }
                            pos = pos + k + c;
                        },
                    }
                },
            }
        }
    }

    /// Decode one regular segment at `from` and deliver it.  On success the
    /// consumed count covers the payload and its terminator.
    pub(crate) fn parse_regular_segment<H: SegmentHandler>(
        buffer: &[u8],
        from: usize,
        d: Delimiters,
        handler: &mut H,
    ) -> (r: Result<usize, SegmentParserError>)
        requires
            from <= buffer@.len(),
        ensures
            old(handler).never_halts() ==> final(handler).never_halts(),
            old(handler).wf() ==> final(handler).wf(),
            match reg_step(buffer@.skip(from as int), d) {
                RegOut::NeedMore => r matches Err(SegmentParserError::Incomplete) && final(handler).log() == old(handler).log(),
                RegOut::Fail(f) => (r matches Err(SegmentParserError::Halt(h)) && h.message@
                    == fail_text(f)@) && final(handler).log() == old(handler).log(),
                RegOut::Seg(sv, c) => {
                    &&& (r matches Ok(n) ==> n == c && final(handler).log() == old(handler).log().push(sv))
                    &&& (r is Err ==> (r matches Err(SegmentParserError::Halt(_))) && final(handler).log() == old(handler).log())
                    &&& (r matches Err(e) ==> (e matches SegmentParserError::Halt(h) && old(handler).may_halt(sv, h)))
                    &&& (old(handler).never_halts() ==> r is Ok)
                },
            },
    {
        let ghost rest = buffer@.skip(from as int);
        proof {
            assert(rest =~= buffer@.subrange(from as int, buffer@.len() as int));
        }
        let len = buffer.len();
        let t_abs = match Self::find_in(buffer, from, len, d.segment) {
            None => {
                return Err(SegmentParserError::Incomplete);
            },
            Some(t) => t,
        };
        let ghost t = t_abs - from;
        proof {
            assert(rest.take(t) =~= buffer@.subrange(from as int, t_abs as int));
        }
        let id_end_abs = match Self::find_in(buffer, from, t_abs, d.element) {
            None => t_abs,
            Some(i) => i,
        };
        if id_end_abs == from {
            return Err(
                SegmentParserError::Halt(Halt::new("Invalid segment: segment ID cannot be empty")),
            );
        }
        let ghost id_end = id_end_abs - from;
        let id = vstd::slice::slice_subrange(buffer, from, id_end_abs);
        proof {
            assert(id@ =~= rest.subrange(0, id_end));
        }
        let data = if id_end_abs < t_abs {
            vstd::slice::slice_subrange(buffer, id_end_abs + 1, t_abs)
        } else {
            vstd::slice::slice_subrange(buffer, t_abs, t_abs)
        };
        proof {
            if id_end < t {
                assert(data@ =~= rest.subrange(id_end + 1, t));
            } else {
                assert(data@ =~= Seq::<u8>::empty());
            }
        }
        let seg = Segment::new(id, data, d);
        match handler.handle(&seg) {
            Ok(()) => Ok(t_abs - from + 1),
            Err(h) => Err(SegmentParserError::Halt(h)),
        }
    }
}

} // verus!
