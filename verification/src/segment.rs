//! Eager, one-segment-at-a-time X12 parser.
//!
//! Unlike the streaming parser, this parser hands out segments that carry
//! their data elements as an indexed collection, decodes the sixteen ISA
//! fields at their fixed positions, and insists that a segment identifier is
//! two or three ASCII alphanumeric bytes.

use vstd::prelude::*;

pub use crate::parser::ComponentIter;

pub use crate::parser::Element;

use crate::scan::{find_byte, lemma_find_byte, split_all};

pub mod isa;

pub mod qualifier;

verus! {

/// Why a parse attempt did not deliver a segment.
#[derive(Debug, Clone, Copy, PartialEq, Eq, Structural)]
pub enum ParserError {
    /// Not enough data in the buffer for a complete segment.
    Incomplete,
    /// Invalid segment structure or format.
    InvalidSegment,
    /// Invalid delimiter configuration in the ISA segment.
    InvalidDelimiters,
    /// The segment identifier is invalid or missing.
    InvalidSegmentId,
    /// The element count exceeds what a segment may carry.
    InvalidElementCount,
    /// A required element is missing or empty.
    MissingRequiredElement,
}

/// The four one-byte delimiters in effect.
#[derive(Debug, Clone, Copy, PartialEq, Eq, Structural)]
pub struct Delimiters {
    /// Element separator (ISA offset 3, typically `*`).
    pub element: u8,
    /// Sub-element separator (ISA offset 104, typically `:`).
    pub subelement: u8,
    /// Segment terminator (ISA offset 105, typically `~`).
    pub segment: u8,
    /// Repetition separator (typically `^`).
    pub repetition: u8,
}

impl Default for Delimiters {
    fn default() -> (d: Self)
        ensures
            d == (Delimiters { element: 42u8, subelement: 58u8, segment: 126u8, repetition: 94u8 }),
    {
        Delimiters { element: 42u8, subelement: 58u8, segment: 126u8, repetition: 94u8 }
    }
}

/// Most data elements one segment may carry.
pub const MAX_ELEMENTS: usize = 512;

/// The mathematical content of one delivered segment: identifier bytes and
/// data elements, in order.
pub ghost struct ElemsView {
    pub id: Seq<u8>,
    pub elems: Seq<Seq<u8>>,
    pub delimiters: Delimiters,
}

/// One parsed segment with its elements decoded up front.
#[derive(Debug)]
pub struct Segment<'a> {
    /// Segment identifier bytes.
    pub id: &'a [u8],
    /// The data elements, in order, not including the identifier.
    pub elements: Vec<Element<'a>>,
    /// Delimiter configuration this segment was parsed under.
    pub delimiters: Delimiters,
}

impl<'a> View for Segment<'a> {
    type V = ElemsView;

    open spec fn view(&self) -> ElemsView {
        ElemsView {
            id: self.id@,
            elems: self.elements@.map_values(|e: Element<'a>| e@),
            delimiters: self.delimiters,
        }
    }
}

impl<'a> Segment<'a> {
    fn new(id: &'a [u8], delimiters: Delimiters) -> (s: Self)
        ensures
            s@.id == id@,
            s@.elems == Seq::<Seq<u8>>::empty(),
            s@.delimiters == delimiters,
    {
        let s = Segment { id, elements: Vec::new(), delimiters };
        proof {
            assert(s@.elems =~= Seq::<Seq<u8>>::empty());
        }
        s
    }

    /// The identifier decoded as UTF-8, if it is valid UTF-8.
    pub fn id_str(&self) -> (r: Option<&'a str>)
        ensures
            match r {
                Some(s) => crate::parser::utf8_decode(self@.id) == Some(s@),
                None => crate::parser::utf8_decode(self@.id) is None,
            },
    {
        crate::parser::utf8_to_str(self.id)
    }

    /// Data element by zero-based index, the identifier not counted.
    pub fn element(&self, index: usize) -> (r: Option<Element<'a>>)
        ensures
            index < self@.elems.len() ==> (r matches Some(e) && e@ == self@.elems[index as int]),
            index >= self@.elems.len() ==> r is None,
    {
        if index < self.elements.len() {
            Some(self.elements[index])
        } else {
            None
        }
    }

    /// Data element by index; missing or empty is an error.
    pub fn required_element(&self, index: usize) -> (r: Result<Element<'a>, ParserError>)
        ensures
            index < self@.elems.len() && self@.elems[index as int].len() > 0 ==> (r matches Ok(e)
                && e@ == self@.elems[index as int]),
            index >= self@.elems.len() || self@.elems[index as int].len() == 0 ==> r
                == Err::<Element<'a>, ParserError>(ParserError::MissingRequiredElement),
    {
        match self.element(index) {
            Some(e) => if !e.is_empty() {
                Ok(e)
            } else {
                Err(ParserError::MissingRequiredElement)
            },
            None => Err(ParserError::MissingRequiredElement),
        }
    }

    /// All data elements, in order.
    pub fn iter_elements(&self) -> (r: Vec<Element<'a>>)
        ensures
            r@.map_values(|e: Element<'a>| e@) == self@.elems,
    {
        let mut out: Vec<Element<'a>> = Vec::new();
        let mut i: usize = 0;
        while i < self.elements.len()
            invariant
                i <= self.elements@.len(),
                out@ == self.elements@.take(i as int),
            decreases self.elements@.len() - i,
        {
            out.push(self.elements[i]);
            proof {
                assert(out@ =~= self.elements@.take(i + 1));
            }
            i = i + 1;
        }
        proof {
            assert(self.elements@.take(i as int) =~= self.elements@);
        }
        out
    }
}

/// Observer of parsed segments; the segment is valid only during the call.
pub trait SegmentHandler {
    /// The segments this handler has acknowledged so far, oldest first.
    spec fn seen(&self) -> Seq<ElemsView>;

    /// Whether this handler promises to acknowledge every segment.
    spec fn never_errs(&self) -> bool;

    /// The errors this handler may report for a given segment; a handler
    /// that never errs uses `false`.
    spec fn may_err(&self, segment: ElemsView, err: ParserError) -> bool;

    /// Observe one segment, or report an error that stops the parse.
    fn handle(&mut self, segment: &Segment<'_>) -> (r: Result<(), ParserError>)
        ensures
            r is Ok ==> final(self).seen() == old(self).seen().push(segment@),
            r is Err ==> final(self).seen() == old(self).seen(),
            r matches Err(e) ==> old(self).may_err(segment@, e),
            old(self).never_errs() ==> r is Ok && final(self).never_errs(),
    ;
}

/// The sixteen fixed-width ISA fields, as byte ranges of the 106-byte
/// header.
pub open spec fn isa_fields(b: Seq<u8>) -> Seq<Seq<u8>> {
    seq![
        b.subrange(4, 6),
        b.subrange(6, 16),
        b.subrange(16, 18),
        b.subrange(18, 28),
        b.subrange(28, 30),
        b.subrange(30, 45),
        b.subrange(45, 47),
        b.subrange(47, 62),
        b.subrange(62, 68),
        b.subrange(68, 72),
        b.subrange(72, 73),
        b.subrange(73, 78),
        b.subrange(78, 87),
        b.subrange(87, 88),
        b.subrange(88, 89),
        b.subrange(89, 90),
    ]
}

/// ASCII letters and digits.
pub open spec fn is_alnum(b: u8) -> bool {
    (48 <= b <= 57) || (65 <= b <= 90) || (97 <= b <= 122)
}

/// A valid segment identifier: two or three ASCII alphanumeric bytes.
pub open spec fn valid_id(id: Seq<u8>) -> bool {
    2 <= id.len() <= 3 && forall|i: int| 0 <= i < id.len() ==> is_alnum(#[trigger] id[i])
}

/// What one parse attempt yields.
pub enum ParseOut {
    /// A segment, the bytes consumed, and the delimiters the parser keeps.
    Deliver(ElemsView, nat, Delimiters),
    /// No segment; the error to report.
    Fail(ParserError),
}

/// Decode the fixed-width ISA header: verify the prefix, require the three
/// announced delimiters and the ISA-11 repetition byte pairwise distinct,
/// cut the sixteen fields at their fixed offsets, and take the repetition
/// separator from ISA-11.  The
/// delivered segment still carries the default repetition separator; the
/// parser keeps the announced one.
pub open spec fn isa_parse(b: Seq<u8>) -> ParseOut {
    if b.len() < 106 {
        ParseOut::Fail(ParserError::Incomplete)
    } else if !(b[0] == 73u8 && b[1] == 83u8 && b[2] == 65u8) {
        ParseOut::Fail(ParserError::InvalidSegmentId)
    } else if b[3] == b[104] || b[3] == b[105] || b[104] == b[105] {
        ParseOut::Fail(ParserError::InvalidDelimiters)
    } else if b[72] == b[3] || b[72] == b[104] || b[72] == b[105] {
        ParseOut::Fail(ParserError::InvalidDelimiters)
    } else {
        let seg_delims = Delimiters {
            element: b[3],
            subelement: b[104],
            segment: b[105],
            repetition: 94u8,
        };
        let kept = Delimiters { repetition: b[72], ..seg_delims };
        ParseOut::Deliver(
            ElemsView { id: seq![73u8, 83u8, 65u8], elems: isa_fields(b), delimiters: seg_delims },
            106,
            kept,
        )
    }
}

/// Decode one regular segment: everything up to the first terminator is the
/// payload, the identifier must be two or three alphanumeric bytes, and the
/// rest splits at every element separator; a lone identifier has no
/// elements at all.
pub open spec fn reg_parse(b: Seq<u8>, d: Delimiters) -> ParseOut {
    match find_byte(b, d.segment) {
        None => ParseOut::Fail(ParserError::Incomplete),
        Some(t) => {
            let payload = b.take(t);
            let id_end = match find_byte(payload, d.element) {
                Some(i) => i,
                None => t,
            };
            if id_end == 0 {
                ParseOut::Fail(ParserError::InvalidSegmentId)
            } else if !valid_id(b.subrange(0, id_end)) {
                ParseOut::Fail(ParserError::InvalidSegmentId)
            } else {
                let elems = if id_end < t {
                    split_all(b.subrange(id_end + 1, t), d.element)
                } else {
                    Seq::<Seq<u8>>::empty()
                };
                if elems.len() > MAX_ELEMENTS {
                    ParseOut::Fail(ParserError::InvalidElementCount)
                } else {
                    ParseOut::Deliver(
                        ElemsView { id: b.subrange(0, id_end), elems, delimiters: d },
                        (t + 1) as nat,
                        d,
                    )
                }
            }
        },
    }
}

/// One parse attempt from the given parser state.
pub open spec fn parse_step(initialized: bool, d: Delimiters, b: Seq<u8>) -> ParseOut {
    if b.len() == 0 {
        ParseOut::Fail(ParserError::Incomplete)
    } else if !initialized {
        isa_parse(b)
    } else {
        reg_parse(b, d)
    }
}

/// Parser state: waiting for the ISA header, or processing with known
/// delimiters.
#[derive(Debug, Clone, Copy, PartialEq, Eq, Structural)]
enum State {
    Initial,
    Processing,
}

/// One-segment-at-a-time X12 parser.
pub struct Parser {
    state: State,
    delimiters: Delimiters,
}

impl Parser {
    /// Whether the delimiters are known.
    pub closed spec fn initialized(&self) -> bool {
        self.state is Processing
    }

    /// The delimiters in effect.
    pub closed spec fn delims(&self) -> Delimiters {
        self.delimiters
    }

    /// A parser awaiting the ISA header, with the default delimiters.
    pub fn new() -> (p: Self)
        ensures
            !p.initialized(),
            p.delims() == (Delimiters {
                element: 42u8,
                subelement: 58u8,
                segment: 126u8,
                repetition: 94u8,
            }),
    {
        Parser { state: State::Initial, delimiters: Delimiters::default() }
    }

    /// Back to the initial state with the default delimiters.
    pub fn reset(&mut self)
        ensures
            !final(self).initialized(),
            final(self).delims() == (Delimiters {
                element: 42u8,
                subelement: 58u8,
                segment: 126u8,
                repetition: 94u8,
            }),
    {
        self.state = State::Initial;
        self.delimiters = Delimiters::default();
    }

    /// The delimiters in effect.
    pub fn delimiters(&self) -> (d: Delimiters)
        ensures
            d == self.delims(),
    {
        self.delimiters
    }

    /// Whether an ISA header has fixed the delimiters.
    pub fn is_initialized(&self) -> (r: bool)
        ensures
            r == self.initialized(),
    {
        self.state == State::Processing
    }

    /// Adopt delimiters without an ISA header and go straight to
    /// processing.
    pub fn set_delimiters(&mut self, delimiters: Delimiters)
        ensures
            final(self).initialized(),
            final(self).delims() == delimiters,
    {
        self.delimiters = delimiters;
        self.state = State::Processing;
    }

    /// Parse one segment from the front of `buffer` and deliver it; report
    /// the bytes consumed.
    pub fn parse_segment<H: SegmentHandler>(
        &mut self,
        buffer: &[u8],
        handler: &mut H,
    ) -> (r: Result<usize, ParserError>)
        ensures
            old(handler).never_errs() ==> final(handler).never_errs(),
            match parse_step(old(self).initialized(), old(self).delims(), buffer@) {
                ParseOut::Fail(pe) => r == Err::<usize, ParserError>(pe) && *final(self) == *old(
                    self,
                ) && final(handler).seen() == old(handler).seen(),
                ParseOut::Deliver(sv, c, nd) => {
                    &&& final(self).initialized()
                    &&& final(self).delims() == nd
                    &&& (r matches Ok(n) ==> n == c && final(handler).seen() == old(
                        handler,
                    ).seen().push(sv))
                    &&& (r is Err ==> final(handler).seen() == old(handler).seen())
                    &&& (r matches Err(e) ==> old(handler).may_err(sv, e))
                    &&& (old(handler).never_errs() ==> (r matches Ok(n) && n == c))
                },
            },
    {
        if buffer.len() == 0 {
            return Err(ParserError::Incomplete);
        }
        match self.state {
            State::Initial => self.parse_isa_segment(buffer, handler),
            State::Processing => self.parse_regular_segment(buffer, handler),
        }
    }

    fn parse_isa_segment<H: SegmentHandler>(
        &mut self,
        buffer: &[u8],
        handler: &mut H,
    ) -> (r: Result<usize, ParserError>)
        requires
            !old(self).initialized(),
        ensures
            old(handler).never_errs() ==> final(handler).never_errs(),
            match isa_parse(buffer@) {
                ParseOut::Fail(pe) => r == Err::<usize, ParserError>(pe) && *final(self) == *old(
                    self,
                ) && final(handler).seen() == old(handler).seen(),
                ParseOut::Deliver(sv, c, nd) => {
                    &&& final(self).initialized()
                    &&& final(self).delims() == nd
                    &&& (r matches Ok(n) ==> n == c && final(handler).seen() == old(
                        handler,
                    ).seen().push(sv))
                    &&& (r is Err ==> final(handler).seen() == old(handler).seen())
                    &&& (r matches Err(e) ==> old(handler).may_err(sv, e))
                    &&& (old(handler).never_errs() ==> (r matches Ok(n) && n == c))
                },
            },
    {
        if buffer.len() < 106 {
            return Err(ParserError::Incomplete);
        }
        let b0 = *vstd::slice::slice_index_get(buffer, 0);
        let b1 = *vstd::slice::slice_index_get(buffer, 1);
        let b2 = *vstd::slice::slice_index_get(buffer, 2);
        if !(b0 == 73 && b1 == 83 && b2 == 65) {
            return Err(ParserError::InvalidSegmentId);
        }
        let elem_sep = *vstd::slice::slice_index_get(buffer, 3);
        let sub_sep = *vstd::slice::slice_index_get(buffer, 104);
        let term = *vstd::slice::slice_index_get(buffer, 105);
        if elem_sep == sub_sep || elem_sep == term || sub_sep == term {
            return Err(ParserError::InvalidDelimiters);
        }
        let rep = *vstd::slice::slice_index_get(buffer, 72);
        if rep == elem_sep || rep == sub_sep || rep == term {
            return Err(ParserError::InvalidDelimiters);
        }
        let seg_delims = Delimiters {
            element: elem_sep,
            subelement: sub_sep,
            segment: term,
            repetition: 94,
        };
        let id = vstd::slice::slice_subrange(buffer, 0, 3);
        let mut fields: Vec<Element<'_>> = Vec::new();
        fields.push(Element::new(vstd::slice::slice_subrange(buffer, 4, 6)));
        fields.push(Element::new(vstd::slice::slice_subrange(buffer, 6, 16)));
        fields.push(Element::new(vstd::slice::slice_subrange(buffer, 16, 18)));
        fields.push(Element::new(vstd::slice::slice_subrange(buffer, 18, 28)));
        fields.push(Element::new(vstd::slice::slice_subrange(buffer, 28, 30)));
        fields.push(Element::new(vstd::slice::slice_subrange(buffer, 30, 45)));
        fields.push(Element::new(vstd::slice::slice_subrange(buffer, 45, 47)));
        fields.push(Element::new(vstd::slice::slice_subrange(buffer, 47, 62)));
        fields.push(Element::new(vstd::slice::slice_subrange(buffer, 62, 68)));
        fields.push(Element::new(vstd::slice::slice_subrange(buffer, 68, 72)));
        fields.push(Element::new(vstd::slice::slice_subrange(buffer, 72, 73)));
        fields.push(Element::new(vstd::slice::slice_subrange(buffer, 73, 78)));
        fields.push(Element::new(vstd::slice::slice_subrange(buffer, 78, 87)));
        fields.push(Element::new(vstd::slice::slice_subrange(buffer, 87, 88)));
        fields.push(Element::new(vstd::slice::slice_subrange(buffer, 88, 89)));
        fields.push(Element::new(vstd::slice::slice_subrange(buffer, 89, 90)));
        let segment = Segment { id, elements: fields, delimiters: seg_delims };
        proof {
            assert(segment@.id =~= seq![73u8, 83u8, 65u8]);
            assert(segment.elements@.len() == 16);
            assert(segment@.elems =~= isa_fields(buffer@));
        }
        self.delimiters = Delimiters { repetition: rep, ..seg_delims };
        self.state = State::Processing;
        match handler.handle(&segment) {
            Ok(()) => Ok(106),
            Err(e) => Err(e),
        }
    }

    fn parse_regular_segment<H: SegmentHandler>(
        &mut self,
        buffer: &[u8],
        handler: &mut H,
    ) -> (r: Result<usize, ParserError>)
        requires
            old(self).initialized(),
        ensures
            old(handler).never_errs() ==> final(handler).never_errs(),
            match reg_parse(buffer@, old(self).delims()) {
                ParseOut::Fail(pe) => r == Err::<usize, ParserError>(pe) && *final(self) == *old(
                    self,
                ) && final(handler).seen() == old(handler).seen(),
                ParseOut::Deliver(sv, c, nd) => {
                    &&& final(self).initialized()
                    &&& final(self).delims() == nd
                    &&& (r matches Ok(n) ==> n == c && final(handler).seen() == old(
                        handler,
                    ).seen().push(sv))
                    &&& (r is Err ==> final(handler).seen() == old(handler).seen())
                    &&& (r matches Err(e) ==> old(handler).may_err(sv, e))
                    &&& (old(handler).never_errs() ==> (r matches Ok(n) && n == c))
                },
            },
    {
        let len = buffer.len();
        let d = self.delimiters;
        proof {
            assert(buffer@.subrange(0, len as int) =~= buffer@);
        }
        let t = match crate::parser::SegmentParser::find_in(buffer, 0, len, d.segment) {
            None => {
                proof {
                    assert(find_byte(buffer@, d.segment) is None);
                }
                return Err(ParserError::Incomplete);
            },
            Some(t) => t,
        };
        let id_end = match crate::parser::SegmentParser::find_in(buffer, 0, t, d.element) {
            None => t,
            Some(i) => i,
        };
        proof {
            assert(buffer@.subrange(0, t as int) =~= buffer@.take(t as int));
        }
        if id_end == 0 {
            proof {
                assert(find_byte(buffer@, d.segment) == Some(t as int));
                assert(find_byte(buffer@.take(t as int), d.element) == Some(0int)
                    || find_byte(buffer@.take(t as int), d.element) is None);
                assert(reg_parse(buffer@, d) == ParseOut::Fail(ParserError::InvalidSegmentId));
            }
            return Err(ParserError::InvalidSegmentId);
        }
        if id_end < 2 || id_end > 3 {
            proof {
                assert(!valid_id(buffer@.subrange(0, id_end as int)));
                assert(reg_parse(buffer@, d) == ParseOut::Fail(ParserError::InvalidSegmentId));
            }
            return Err(ParserError::InvalidSegmentId);
        }
        let mut j: usize = 0;
        while j < id_end
            invariant
                j <= id_end,
                2 <= id_end <= 3,
                id_end <= t < buffer@.len(),
                forall|i: int| 0 <= i < j ==> is_alnum(#[trigger] buffer@[i]),
                *self == *old(self),
                handler.seen() == old(handler).seen(),
                old(handler).never_errs() ==> handler.never_errs(),
                d == old(self).delims(),
                find_byte(buffer@, d.segment) == Some(t as int),
                (match find_byte(buffer@.take(t as int), d.element) {
                    Some(i) => i == id_end as int,
                    None => id_end == t,
                }),
            decreases id_end - j,
        {
            let b = *vstd::slice::slice_index_get(buffer, j);
            if !((48 <= b && b <= 57) || (65 <= b && b <= 90) || (97 <= b && b <= 122)) {
                proof {
                    assert(buffer@.subrange(0, id_end as int)[j as int] == buffer@[j as int]);
                    assert(!valid_id(buffer@.subrange(0, id_end as int)));
                }
                return Err(ParserError::InvalidSegmentId);
            }
            j = j + 1;
        }
        proof {
            assert(forall|i: int|
                0 <= i < id_end ==> buffer@.subrange(0, id_end as int)[i] == buffer@[i]);
            assert(valid_id(buffer@.subrange(0, id_end as int)));
        }
        let id = vstd::slice::slice_subrange(buffer, 0, id_end);
        let mut collected: Vec<Element<'_>> = Vec::new();
        let ghost sv_elems: Seq<Seq<u8>> = if id_end < t {
            split_all(buffer@.subrange(id_end + 1, t as int), d.element)
        } else {
            Seq::<Seq<u8>>::empty()
        };
        if id_end < t {
            let data = vstd::slice::slice_subrange(buffer, id_end + 1, t);
            proof {
                assert(data@ =~= buffer@.subrange(id_end + 1, t as int));
                crate::scan::lemma_tail_elems_full(data@, d.element);
            }
            let mut it = Element::new(data).split_components(d.element);
            let ghost pieces: Seq<Seq<u8>> = split_all(data@, d.element);
            proof {
                crate::scan::lemma_split_all_count(data@, d.element);
                crate::scan::lemma_count_byte_le(data@, d.element);
                if data@.len() == 0 {
                    lemma_find_byte(data@, d.element);
                    assert(pieces == seq![data@]);
                } else {
                    assert(it.remaining() == pieces);
                }
                assert(pieces.skip(0) =~= pieces);
                assert(collected@.map_values(|e: Element<'_>| e@) =~= pieces.take(0));
            }
            if data.len() == 0 {
                collected.push(Element::new(data));
                proof {
                    assert(data@ =~= pieces[0]);
                    assert(collected@.map_values(|e: Element<'_>| e@) =~= pieces);
                }
            } else {
                let mut taken: usize = 0;
                loop
                    invariant_except_break
                        taken <= pieces.len(),
                        taken == collected@.len(),
                        pieces.len() <= data@.len() + 1,
                        pieces == split_all(data@, d.element),
                        it.remaining() == pieces.skip(taken as int),
                        collected@.map_values(|e: Element<'_>| e@) == pieces.take(taken as int),
                        taken <= MAX_ELEMENTS,
                        *self == *old(self),
                        handler.seen() == old(handler).seen(),
                        old(handler).never_errs() ==> handler.never_errs(),
                        d == old(self).delims(),
                        0 <= id_end < t < buffer@.len(),
                        find_byte(buffer@, d.segment) == Some(t as int),
                        find_byte(buffer@.take(t as int), d.element) == Some(id_end as int),
                        valid_id(buffer@.subrange(0, id_end as int)),
                        data@ == buffer@.subrange(id_end + 1, t as int),
                        sv_elems == pieces,
                    ensures
                        collected@.map_values(|e: Element<'_>| e@) == pieces,
                        pieces.len() <= MAX_ELEMENTS,
                        *self == *old(self),
                        handler.seen() == old(handler).seen(),
                        old(handler).never_errs() ==> handler.never_errs(),
                        d == old(self).delims(),
                        0 <= id_end < t < buffer@.len(),
                        find_byte(buffer@, d.segment) == Some(t as int),
                        find_byte(buffer@.take(t as int), d.element) == Some(id_end as int),
                        valid_id(buffer@.subrange(0, id_end as int)),
                        data@ == buffer@.subrange(id_end + 1, t as int),
                        sv_elems == pieces,
                    decreases it.remaining().len(),
                {
                    match it.next() {
                        None => {
                            proof {
                                assert(pieces.skip(taken as int).len() == 0);
                                assert(collected@.map_values(|e: Element<'_>| e@) =~= pieces);
                            }
                            break;
                        },
                        Some(piece) => {
                            if taken == MAX_ELEMENTS {
                                proof {
                                    assert(pieces.skip(taken as int).len() > 0);
                                    assert(pieces.len() > MAX_ELEMENTS);
                                }
                                return Err(ParserError::InvalidElementCount);
                            }
                            collected.push(Element::new(piece));
                            proof {
                                assert(pieces.skip(taken as int)[0] == pieces[taken as int]);
                                assert(pieces.skip(taken as int).skip(1) =~= pieces.skip(
                                    taken + 1,
                                ));
                                assert(collected@.map_values(|e: Element<'_>| e@) =~= pieces.take(
                                    taken + 1,
                                ));
                            }
                            taken = taken + 1;
                        },
                    }
                }
            }
        }
        let segment = Segment { id, elements: collected, delimiters: d };
        proof {
            assert(segment@.elems == sv_elems);
        }
        match handler.handle(&segment) {
            Ok(()) => Ok(t + 1),
            Err(e) => Err(e),
        }
    }
}

impl Default for Parser {
    fn default() -> (p: Self)
        ensures
            !p.initialized(),
    {
        Parser::new()
    }
}

} // verus!
