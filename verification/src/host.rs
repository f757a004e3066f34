//! Chunked host driver: pumps a byte source through the streaming parser,
//! compacting its working buffer, growing it when a single segment does not
//! fit, and turning the parser's recoverable incomplete signal into further
//! reads.
//!
//! Everything the driver does is pinned by [`drive`], a function of the
//! whole remaining input and the capacity cap alone: how the input was split
//! into reads is invisible in the contract.

use vstd::prelude::*;

use crate::parser::{
    fail_text, isa_step, reg_step, FailKind, Halt, IsaOut, RegOut, SegView, SegmentHandler,
    SegmentParser, SegmentParserError,
};
use crate::scan::{find_byte, lead_breaks, lemma_find_byte, lemma_lead_breaks};

verus! {

/// A failure of the byte source.
#[derive(Debug)]
pub struct SourceError {
    /// Human-readable reason.
    pub message: String,
}

/// A caller-supplied byte source with a blocking read primitive.  A zero
/// byte count means the source is exhausted (unless no space was offered).
pub trait ByteSource {
    /// The bytes this source has yet to deliver, in order.
    spec fn stream(&self) -> Seq<u8>;

    /// Fill `buf[from..]` with the next bytes of the stream and report how
    /// many were written.
    fn read_into(&mut self, buf: &mut Vec<u8>, from: usize) -> (r: Result<usize, SourceError>)
        requires
            from <= old(buf)@.len(),
        ensures
            match r {
                Ok(n) => {
                    &&& from + n <= old(buf)@.len()
                    &&& n <= old(self).stream().len()
                    &&& final(buf)@ == old(buf)@.take(from as int) + old(self).stream().take(
                        n as int,
                    ) + old(buf)@.skip(from + n)
                    &&& final(self).stream() == old(self).stream().skip(n as int)
                    &&& (n == 0 ==> old(self).stream().len() == 0 || from == old(buf)@.len())
                },
                Err(_) => final(buf)@ == old(buf)@ && final(self).stream() == old(self).stream(),
            },
    ;
}

/// A fatal driver outcome.
#[derive(Debug)]
pub enum StreamingParserError {
    /// The byte source failed.
    Source(SourceError),
    /// Parsing halted: a structural failure, a handler stop, an incomplete
    /// segment at the end of the input, or a segment over the capacity cap.
    Halt(Halt),
}

/// Monotonically non-decreasing counters the driver keeps.
#[derive(Debug, Clone, Copy, PartialEq, Eq, Structural)]
pub struct ParseStats {
    /// Bytes taken from the source.
    pub bytes_read: usize,
    /// Segments delivered to the handler.
    pub segments_parsed: usize,
    /// How often the working buffer grew.
    pub buffer_resizes: usize,
    /// Largest working-buffer size so far.
    pub max_buffer_size: usize,
}

/// How a whole driver run ends.
pub enum DriveEnd {
    /// The input was consumed entirely.
    Done,
    /// The input ended inside a segment.
    ShortInput,
    /// A segment (or the ISA header with its leading break run unread)
    /// needs more contiguous bytes than the capacity cap allows.
    TooBig,
    /// The parser halted.
    Failed(FailKind),
}

/// Everything a driver run over input `b` does, assuming the handler
/// acknowledges every segment.
pub ghost struct DriveRun {
    pub segs: Seq<SegView>,
    pub state: SegmentParser,
    pub end: DriveEnd,
}

/// The driver's behaviour on the whole remaining input `b` under capacity
/// cap `cap`: line-break runs are always absorbed piecemeal and never need
/// buffer space; a segment is deliverable exactly when it fits within `cap`
/// contiguous bytes; input that ends inside a segment small enough to
/// buffer is reported short, while a segment that cannot fit while more
/// input is pending is reported too big.
#[verifier::opaque]
pub open spec fn drive(p: SegmentParser, b: Seq<u8>, cap: nat) -> DriveRun
    decreases b.len(),
    via drive_dec
{
    let k = lead_breaks(b);
    let rest = b.skip(k as int);
    if rest.len() == 0 {
        DriveRun { segs: seq![], state: p, end: DriveEnd::Done }
    } else {
        match p {
            SegmentParser::Initial => {
                if rest.len() < 106 {
                    if rest.len() >= cap {
                        DriveRun { segs: seq![], state: p, end: DriveEnd::TooBig }
                    } else {
                        DriveRun { segs: seq![], state: p, end: DriveEnd::ShortInput }
                    }
                } else if cap < 106 {
                    DriveRun { segs: seq![], state: p, end: DriveEnd::TooBig }
                } else {
                    match isa_step(rest) {
                        IsaOut::Fail(f) => DriveRun {
                            segs: seq![],
                            state: p,
                            end: DriveEnd::Failed(f),
                        },
                        IsaOut::Seg(sv, d) => {
                            let t = drive(SegmentParser::Processing(d), rest.skip(106), cap);
                            DriveRun { segs: seq![sv] + t.segs, state: t.state, end: t.end }
                        },
                        IsaOut::NeedMore => DriveRun {
                            segs: seq![],
                            state: p,
                            end: DriveEnd::ShortInput,
                        },
                    }
                }
            },
            SegmentParser::Processing(d) => {
                match find_byte(rest, d.segment) {
                    None => {
                        if rest.len() >= cap {
                            DriveRun { segs: seq![], state: p, end: DriveEnd::TooBig }
                        } else {
                            DriveRun { segs: seq![], state: p, end: DriveEnd::ShortInput }
                        }
                    },
                    Some(t) => {
                        if t + 1 > cap {
                            DriveRun { segs: seq![], state: p, end: DriveEnd::TooBig }
                        } else {
                            match reg_step(rest, d) {
                                RegOut::Fail(f) => DriveRun {
                                    segs: seq![],
                                    state: p,
                                    end: DriveEnd::Failed(f),
                                },
                                RegOut::Seg(sv, c) => {
                                    let t = drive(p, rest.skip(c as int), cap);
                                    DriveRun {
                                        segs: seq![sv] + t.segs,
                                        state: t.state,
                                        end: t.end,
                                    }
                                },
                                RegOut::NeedMore => DriveRun {
                                    segs: seq![],
                                    state: p,
                                    end: DriveEnd::ShortInput,
                                },
                            }
                        }
                    },
                }
            },
        }
    }
}

#[via_fn]
proof fn drive_dec(p: SegmentParser, b: Seq<u8>, cap: nat) {
    lemma_lead_breaks(b);
    let k = lead_breaks(b);
    let rest = b.skip(k as int);
    if rest.len() != 0 {
        match p {
            SegmentParser::Processing(d) => {
                lemma_find_byte(rest, d.segment);
            },
            SegmentParser::Initial => {
            },
        }
    }
}

/// Skipping part of a leading break run does not change what a drive does.
proof fn lemma_drive_skip_breaks(p: SegmentParser, b: Seq<u8>, cap: nat, j: int)
    requires
        0 <= j <= lead_breaks(b),
    ensures
        drive(p, b.skip(j), cap) == drive(p, b, cap),
{
    reveal(drive);
    lemma_lead_breaks(b);
    let k = lead_breaks(b);
    lemma_lead_breaks_skip(b, j);
    assert(b.skip(j).skip(k - j) =~= b.skip(k as int));
}

/// Within a leading break run, skipping shortens the run exactly.
proof fn lemma_lead_breaks_skip(b: Seq<u8>, j: int)
    requires
        0 <= j <= lead_breaks(b),
    ensures
        lead_breaks(b.skip(j)) == lead_breaks(b) - j,
{
    lemma_lead_breaks(b);
    let k = lead_breaks(b);
    let t = b.skip(j);
    assert(forall|i: int| 0 <= i < t.len() ==> t[i] == b[i + j]);
    crate::scan::lemma_lead_breaks_is(t, k - j);
}

/// The ISA decoder reads only the first 106 bytes.
proof fn lemma_isa_step_take(a: Seq<u8>, b: Seq<u8>)
    requires
        a.len() >= 106,
        b.len() >= 106,
        a.take(106) == b.take(106),
    ensures
        isa_step(a) == isa_step(b),
{
    assert(forall|i: int| 0 <= i < 106 ==> a[i] == b[i]) by {
        assert(forall|i: int| 0 <= i < 106 ==> a[i] == a.take(106)[i] && b[i] == b.take(106)[i]);
    }
    assert(a.subrange(4, 105) =~= b.subrange(4, 105));
}

/// A regular-segment decode whose terminator lies inside a window decodes
/// identically on any extension of that window.
proof fn lemma_reg_step_take(a: Seq<u8>, w: Seq<u8>, d: crate::parser::Delimiters)
    requires
        w == a.take(w.len() as int),
        w.len() <= a.len(),
        find_byte(w, d.segment) is Some,
    ensures
        reg_step(a, d) == reg_step(w, d),
        find_byte(a, d.segment) == find_byte(w, d.segment),
{
    lemma_find_byte(w, d.segment);
    let t = find_byte(w, d.segment)->Some_0;
    assert(forall|i: int| 0 <= i < w.len() ==> w[i] == a[i]);
    crate::scan::lemma_find_byte_is(a, d.segment, t);
    assert(a.take(t) =~= w.take(t));
    lemma_find_byte(a.take(t), d.segment);
    match find_byte(a.take(t), d.segment) {
        Some(i) => {
        },
        None => {
        },
    }
    let payload = a.take(t);
    lemma_find_byte(payload, d.element);
    match find_byte(payload, d.element) {
        Some(i) => {
            if i < t {
                assert(a.subrange(i + 1, t) =~= w.subrange(i + 1, t));
            }
            assert(a.subrange(0, i) =~= w.subrange(0, i));
        },
        None => {
            assert(a.subrange(0, t) =~= w.subrange(0, t));
        },
    }
}

/// A window with no terminator pushes the first terminator of the whole
/// input past the window.
proof fn lemma_find_byte_beyond(a: Seq<u8>, w: Seq<u8>, x: u8)
    requires
        w == a.take(w.len() as int),
        w.len() <= a.len(),
        find_byte(w, x) is None,
    ensures
        match find_byte(a, x) {
            Some(t) => t >= w.len(),
            None => true,
        },
{
    lemma_find_byte(w, x);
    lemma_find_byte(a, x);
    assert(forall|i: int| 0 <= i < w.len() ==> w[i] == a[i]);
}

/// The driver delivers a prefix of the single-shot parse, and when it
/// completes, exactly the single-shot parse: the buffer manager's outcome
/// for a stream is the outcome of parsing the stream in one piece.
pub proof fn lemma_drive_matches_run(p: SegmentParser, b: Seq<u8>, cap: nat)
    ensures
        ({
            let d = drive(p, b, cap);
            let r = crate::parser::run(p, b);
            &&& d.segs.len() <= r.segs.len()
            &&& d.segs == r.segs.take(d.segs.len() as int)
            &&& (d.end is Done ==> d.segs == r.segs && r.end is Complete && r.used == b.len()
                && d.state == r.state)
            &&& (d.end matches DriveEnd::Failed(f) ==> r.end == crate::parser::RunEnd::Failed(f)
                && d.segs == r.segs)
        }),
    decreases b.len(),
{
    reveal(drive);
    let d = drive(p, b, cap);
    let r = crate::parser::run(p, b);
    let k = lead_breaks(b);
    let rest = b.skip(k as int);
    lemma_lead_breaks(b);
    if rest.len() == 0 {
        assert(d.segs =~= r.segs.take(d.segs.len() as int));
    } else {
        match p {
            SegmentParser::Initial => {
                if rest.len() >= 106 && cap >= 106 && isa_step(rest) is Seg {
                    let sv = isa_step(rest)->Seg_0;
                    let dd = isa_step(rest)->Seg_1;
                    let pn = SegmentParser::Processing(dd);
                    lemma_drive_matches_run(pn, rest.skip(106), cap);
                    let td = drive(pn, rest.skip(106), cap);
                    let tr = crate::parser::run(pn, rest.skip(106));
                    if tr.end is NeedMore {
                        crate::parser::lemma_run_needmore(pn, rest.skip(106));
                    }
                    assert(d.segs == seq![sv] + td.segs);
                    assert(r.segs == seq![sv] + tr.segs);
                    assert(td.segs == tr.segs.take(td.segs.len() as int));
                    assert(d.segs =~= r.segs.take(d.segs.len() as int));
                    if d.end is Done {
                        assert(td.segs =~= tr.segs);
                        assert(d.segs =~= r.segs);
                    }
                    if d.end is Failed {
                        assert(td.segs =~= tr.segs);
                        assert(d.segs =~= r.segs);
                    }
                } else {
                    assert(d.segs =~= r.segs.take(d.segs.len() as int));
                }
            },
            SegmentParser::Processing(dl) => {
                lemma_find_byte(rest, dl.segment);
                match find_byte(rest, dl.segment) {
                    Some(t) if t + 1 <= cap && reg_step(rest, dl) is Seg => {
                        let sv = reg_step(rest, dl)->Seg_0;
                        let c = reg_step(rest, dl)->Seg_1;
                        lemma_drive_matches_run(p, rest.skip(c as int), cap);
                        let td = drive(p, rest.skip(c as int), cap);
                        let tr = crate::parser::run(p, rest.skip(c as int));
                        if tr.end is NeedMore {
                            crate::parser::lemma_run_needmore(p, rest.skip(c as int));
                        }
                        assert(d.segs == seq![sv] + td.segs);
                        assert(r.segs == seq![sv] + tr.segs);
                        assert(td.segs == tr.segs.take(td.segs.len() as int));
                        assert(d.segs =~= r.segs.take(d.segs.len() as int));
                        if d.end is Done {
                            assert(td.segs =~= tr.segs);
                            assert(d.segs =~= r.segs);
                        }
                        if d.end is Failed {
                            assert(td.segs =~= tr.segs);
                            assert(d.segs =~= r.segs);
                        }
                    },
                    _ => {
                        assert(d.segs =~= r.segs.take(d.segs.len() as int));
                    },
                }
            },
        }
    }
}

/// A drive stuck at input that ends inside a segment it could buffer.
proof fn lemma_drive_short(p: SegmentParser, rem: Seq<u8>, cap: nat)
    requires
        rem.len() > 0,
        !crate::scan::is_line_break(rem[0]),
        rem.len() < cap,
        match p {
            SegmentParser::Initial => rem.len() < 106,
            SegmentParser::Processing(dl) => find_byte(rem, dl.segment) is None,
        },
    ensures
        drive(p, rem, cap).end is ShortInput,
        drive(p, rem, cap).segs == Seq::<SegView>::empty(),
        drive(p, rem, cap).state == p,
{
    reveal(drive);
    lemma_lead_breaks(rem);
    assert(lead_breaks(rem) == 0);
    assert(rem.skip(0) =~= rem);
}

/// A drive stuck at a segment that cannot fit the capacity cap.
proof fn lemma_drive_too_big(p: SegmentParser, rem: Seq<u8>, cap: nat)
    requires
        rem.len() >= cap,
        cap >= 1,
        !crate::scan::is_line_break(rem[0]),
        match p {
            SegmentParser::Initial => cap < 106,
            SegmentParser::Processing(dl) => (match find_byte(rem, dl.segment) {
                None => true,
                Some(t) => t + 1 > cap,
            }),
        },
    ensures
        drive(p, rem, cap).end is TooBig,
        drive(p, rem, cap).segs == Seq::<SegView>::empty(),
        drive(p, rem, cap).state == p,
{
    reveal(drive);
    lemma_lead_breaks(rem);
    assert(lead_breaks(rem) == 0);
    assert(rem.skip(0) =~= rem);
}

/// Absorbing a run of line breaks moves a drive's starting point without
/// changing what it does.
proof fn lemma_drive_absorb_breaks(p: SegmentParser, inp: Seq<u8>, off: int, k: int, cap: nat)
    requires
        0 <= off,
        0 <= k,
        off + k <= inp.len(),
        forall|j: int| off <= j < off + k ==> crate::scan::is_line_break(#[trigger] inp[j]),
    ensures
        drive(p, inp.skip(off), cap) == drive(p, inp.skip(off + k), cap),
{
    let sfx = inp.skip(off);
    assert(forall|j: int| 0 <= j < k ==> crate::scan::is_line_break(#[trigger] sfx[j])) by {
        assert(forall|j: int| 0 <= j < k ==> sfx[j] == inp[j + off]);
    }
    lemma_lead_breaks(sfx);
    if lead_breaks(sfx) < k {
        assert(crate::scan::is_line_break(sfx[lead_breaks(sfx) as int]));
        assert(false);
    }
    lemma_drive_skip_breaks(p, sfx, cap, k);
    assert(sfx.skip(k) =~= inp.skip(off + k));
}

/// Chaining two delivery prefixes: bookkeeping for the driver loop.
proof fn lemma_chain_prefix(
    all: Seq<SegView>,
    done: int,
    dc: int,
    c1: Seq<SegView>,
    c2: Seq<SegView>,
    log0: Seq<SegView>,
    log1: Seq<SegView>,
)
    requires
        0 <= done,
        0 <= dc <= c1.len(),
        done + c1.len() == all.len(),
        all == all.take(done) + c1,
        c1 == c1.take(dc) + c2,
        log1 == log0 + all.take(done) + c1.take(dc),
    ensures
        all.take(done + dc) == all.take(done) + c1.take(dc),
        all == all.take(done + dc) + c2,
        log1 == log0 + all.take(done + dc),
{
    assert(all.take(done + dc) =~= all.take(done) + c1.take(dc));
    assert(all =~= all.take(done + dc) + c2);
    assert(log0 + all.take(done) + c1.take(dc) =~= log0 + all.take(done + dc));
}

/// A zero-filled byte buffer.
fn zero_vec(n: usize) -> (v: Vec<u8>)
    ensures
        v@.len() == n,
{
    let mut v: Vec<u8> = Vec::new();
    while v.len() < n
        invariant
            v@.len() <= n,
        decreases n - v@.len(),
    {
        v.push(0);
    }
    v
}

/// A byte source over an owned byte string, for callers that already hold
/// the whole input in memory.
pub struct BufferSource {
    data: Vec<u8>,
    pos: usize,
}

impl BufferSource {
    /// A source that will deliver exactly `data`.
    pub fn new(data: Vec<u8>) -> (s: Self)
        ensures
            s.stream() == data@,
    {
        let s = BufferSource { data, pos: 0 };
        proof {
            assert(s.stream() =~= s.data@);
        }
        s
    }
}

impl ByteSource for BufferSource {
    closed spec fn stream(&self) -> Seq<u8> {
        if self.pos <= self.data@.len() {
            self.data@.skip(self.pos as int)
        } else {
            Seq::empty()
        }
    }

    fn read_into(&mut self, buf: &mut Vec<u8>, from: usize) -> (r: Result<usize, SourceError>)
        ensures
            match r {
                Ok(n) => {
                    &&& from + n <= old(buf)@.len()
                    &&& n <= old(self).stream().len()
                    &&& final(buf)@ == old(buf)@.take(from as int) + old(self).stream().take(
                        n as int,
                    ) + old(buf)@.skip(from + n)
                    &&& final(self).stream() == old(self).stream().skip(n as int)
                    &&& (n == 0 ==> old(self).stream().len() == 0 || from == old(buf)@.len())
                },
                Err(_) => final(buf)@ == old(buf)@ && final(self).stream() == old(self).stream(),
            },
    {
        let space = buf.len() - from;
        let left = if self.pos <= self.data.len() {
            self.data.len() - self.pos
        } else {
            0
        };
        let n = if space < left {
            space
        } else {
            left
        };
        let ghost pre_buf = buf@;
        let ghost pre = *self;
        let mut i: usize = 0;
        while i < n
            invariant
                i <= n,
                from + n <= pre_buf.len(),
                pre_buf.len() <= usize::MAX,
                pre.data@.len() <= usize::MAX,
                n == 0 || pre.pos + n <= pre.data@.len(),
                *self == pre,
                buf@.len() == pre_buf.len(),
                forall|j: int| 0 <= j < from ==> buf@[j] == pre_buf[j],
                forall|j: int| 0 <= j < i ==> #[trigger] buf@[from + j] == pre.data@[pre.pos + j],
                forall|j: int| from + n <= j < pre_buf.len() ==> buf@[j] == pre_buf[j],
            decreases n - i,
        {
            let b = self.data[self.pos + i];
            let slot = &mut buf[from + i];
            *slot = b;
            i = i + 1;
        }
        self.pos = self.pos + n;
        proof {
            if n > 0 {
                assert(pre.pos <= pre.data@.len());
                assert(pre.stream() == pre.data@.skip(pre.pos as int));
                assert(forall|j: int|
                    0 <= j < n ==> pre.stream().take(n as int)[j] == pre.data@[pre.pos + j]);
            } else {
                assert(pre.stream().take(0) =~= Seq::<u8>::empty());
            }
            assert forall|k: int| from <= k < from + n implies buf@[k] == pre.data@[pre.pos + (k
                - from)] by {
                assert(buf@[from + (k - from)] == pre.data@[pre.pos + (k - from)]);
            }
            assert(buf@ =~= pre_buf.take(from as int) + pre.stream().take(n as int)
                + pre_buf.skip(from + n));
            assert(self.stream() =~= pre.stream().skip(n as int));
        }
        Ok(n)
    }
}

/// Chunked host driver: owns the working buffer, a parser and the handler,
/// and drives a byte source to exhaustion.
pub struct StreamingParser<H: SegmentHandler> {
    parser: SegmentParser,
    handler: H,
    buf: Vec<u8>,
    start: usize,
    end: usize,
    max_capacity: usize,
    growth_factor: usize,
    stats: ParseStats,
}

impl<H: SegmentHandler> StreamingParser<H> {
    /// Buffer cursors in range, configuration sane, and the recorded peak
    /// buffer size equal to the working buffer's size (the buffer only
    /// grows).
    pub closed spec fn wf(&self) -> bool {
        &&& self.start <= self.end <= self.buf@.len()
        &&& 1 <= self.buf@.len() <= self.max_capacity
        &&& self.growth_factor >= 2
        &&& self.stats.max_buffer_size == self.buf@.len()
    }

    /// Bytes read from the source but not yet consumed by the parser.
    pub closed spec fn pending(&self) -> Seq<u8> {
        self.buf@.subrange(self.start as int, self.end as int)
    }

    /// The parser's current state.
    pub closed spec fn state_of(&self) -> SegmentParser {
        self.parser
    }

    /// The owned handler.
    pub closed spec fn hnd(&self) -> H {
        self.handler
    }

    /// The capacity cap.
    pub closed spec fn cap(&self) -> nat {
        self.max_capacity as nat
    }

    /// The statistics so far.
    pub closed spec fn recorded(&self) -> ParseStats {
        self.stats
    }

    /// A driver with the default configuration: an 8 KiB working buffer
    /// growing by doubling up to 16 MiB.
    pub fn new(handler: H) -> (r: Self)
        ensures
            r.wf(),
            r.pending() == Seq::<u8>::empty(),
            r.state_of() == SegmentParser::Initial,
            r.hnd() == handler,
            r.cap() == 16777216,
            r.recorded() == (ParseStats {
                bytes_read: 0,
                segments_parsed: 0,
                buffer_resizes: 0,
                max_buffer_size: 8192,
            }),
    {
        Self::with_config(handler, 8192, 16777216, 2)
    }

    /// A driver with a chosen first allocation, capacity cap and growth
    /// factor.
    pub fn with_config(
        handler: H,
        initial_capacity: usize,
        max_capacity: usize,
        growth_factor: usize,
    ) -> (r: Self)
        requires
            1 <= initial_capacity <= max_capacity,
            growth_factor >= 2,
        ensures
            r.wf(),
            r.pending() == Seq::<u8>::empty(),
            r.state_of() == SegmentParser::Initial,
            r.hnd() == handler,
            r.cap() == max_capacity,
            r.recorded() == (ParseStats {
                bytes_read: 0,
                segments_parsed: 0,
                buffer_resizes: 0,
                max_buffer_size: initial_capacity,
            }),
    {
        let buf = zero_vec(initial_capacity);
        let r = StreamingParser {
            parser: SegmentParser::init(),
            handler,
            buf,
            start: 0,
            end: 0,
            max_capacity,
            growth_factor,
            stats: ParseStats {
                bytes_read: 0,
                segments_parsed: 0,
                buffer_resizes: 0,
                max_buffer_size: initial_capacity,
            },
        };
        proof {
            assert(r.pending() =~= Seq::<u8>::empty());
        }
        r
    }

    /// The handler, for reading out accumulated observations.
    pub fn handler(&self) -> (h: &H)
        ensures
            *h == self.hnd(),
    {
        &self.handler
    }

    /// The statistics so far.
    pub fn stats(&self) -> (s: ParseStats)
        ensures
            s == self.recorded(),
    {
        self.stats
    }

    /// Move the unparsed bytes to the front of the buffer.
    fn make_space(&mut self)
        requires
            old(self).wf(),
        ensures
            final(self).wf(),
            final(self).pending() == old(self).pending(),
            final(self).start == 0,
            final(self).end == old(self).end - old(self).start,
            final(self).buf@.len() == old(self).buf@.len(),
            final(self).parser == old(self).parser,
            final(self).handler == old(self).handler,
            final(self).max_capacity == old(self).max_capacity,
            final(self).growth_factor == old(self).growth_factor,
            final(self).stats == old(self).stats,
    {
        let n = self.end - self.start;
        let mut i: usize = 0;
        while i < n
            invariant
                i <= n,
                n == old(self).end - old(self).start,
                self.start == old(self).start,
                self.end == old(self).end,
                self.start <= self.end <= self.buf@.len(),
                self.buf@.len() == old(self).buf@.len(),
                self.parser == old(self).parser,
                self.handler == old(self).handler,
                self.max_capacity == old(self).max_capacity,
                self.growth_factor == old(self).growth_factor,
                self.stats == old(self).stats,
                forall|j: int| 0 <= j < i ==> self.buf@[j] == old(self).pending()[j],
                forall|j: int|
                    self.start + i <= j < self.buf@.len() ==> self.buf@[j] == old(self).buf@[j],
            decreases n - i,
        {
            let b = self.buf[self.start + i];
            proof {
                assert(self.buf@[self.start + i] == old(self).buf@[self.start + i]);
                assert(old(self).pending()[i as int] == old(self).buf@[self.start + i]);
            }
            let slot = &mut self.buf[i];
            *slot = b;
            i = i + 1;
        }
        self.end = n;
        self.start = 0;
        proof {
            assert(self.pending() =~= old(self).pending());
        }
    }

    /// Read the next chunk into the free tail of the buffer.
    fn refill<R: ByteSource>(&mut self, reader: &mut R) -> (r: Result<usize, SourceError>)
        requires
            old(self).wf(),
            old(self).end < old(self).buf@.len(),
        ensures
            final(self).wf(),
            final(self).max_capacity == old(self).max_capacity,
            final(self).growth_factor == old(self).growth_factor,
            final(self).parser == old(self).parser,
            final(self).handler == old(self).handler,
            final(self).start == old(self).start,
            final(self).buf@.len() == old(self).buf@.len(),
            final(self).stats == old(self).stats,
            match r {
                Ok(n) => final(self).end == old(self).end + n && n <= old(reader).stream().len()
                    && final(self).pending() == old(self).pending() + old(reader).stream().take(
                    n as int,
                ) && final(reader).stream() == old(reader).stream().skip(n as int) && (n == 0
                    ==> old(reader).stream().len() == 0),
                Err(_) => final(self).end == old(self).end && final(self).pending() == old(self).pending() && final(reader).stream() == old(reader).stream(),
            },
    {
        let ghost pre_buf = self.buf@;
        let ghost pre_stream = reader.stream();
        let from = self.end;
        match reader.read_into(&mut self.buf, from) {
            Err(e) => {
                proof {
                    assert(self.pending() =~= old(self).pending());
                }
                Err(e)
            },
            Ok(n) => {
                proof {
                    assert(self.buf@.subrange(self.start as int, self.end + n as int)
                        =~= pre_buf.subrange(self.start as int, self.end as int)
                        + pre_stream.take(n as int));
                }
                self.end = self.end + n;
                proof {
                    assert(self.pending() =~= old(self).pending() + pre_stream.take(n as int));
                }
                Ok(n)
            },
        }
    }

    /// Deliver every complete segment the buffer holds, committing the
    /// consumed bytes; `tail` is the rest of the input beyond the buffer.
    #[verifier::rlimit(100)]
    fn drain(&mut self, Ghost(tail): Ghost<Seq<u8>>) -> (res: (Result<(), Halt>, Ghost<int>))
        requires
            old(self).wf(),
            old(self).pending().len() + tail.len() <= usize::MAX,
            old(self).stats.segments_parsed + old(self).pending().len() <= usize::MAX,
        ensures
            ({
                let w0 = old(self).pending();
                let inp = w0 + tail;
                let cap = old(self).max_capacity as nat;
                let cont = drive(old(self).state_of(), inp, cap);
                let dcount = res.1@;
                let cont2 = drive(final(self).state_of(), final(self).pending() + tail, cap);
                &&& final(self).wf()
                &&& final(self).max_capacity == old(self).max_capacity
                &&& final(self).growth_factor == old(self).growth_factor
                &&& final(self).buf@.len() == old(self).buf@.len()
                &&& final(self).end == old(self).end
                &&& old(self).start <= final(self).start
                &&& final(self).pending() == w0.skip(final(self).start - old(self).start)
                &&& 0 <= dcount <= cont.segs.len()
                &&& dcount <= final(self).start - old(self).start
                &&& final(self).hnd().log() == old(self).hnd().log() + cont.segs.take(dcount)
                &&& (old(self).hnd().never_halts() ==> final(self).hnd().never_halts())
                &&& (old(self).hnd().wf() ==> final(self).hnd().wf())
                &&& cont.segs == cont.segs.take(dcount) + cont2.segs
                &&& cont.end == cont2.end
                &&& cont.state == cont2.state
                &&& final(self).stats.segments_parsed == old(self).stats.segments_parsed + dcount
                &&& final(self).stats.bytes_read == old(self).stats.bytes_read
                &&& final(self).stats.buffer_resizes == old(self).stats.buffer_resizes
                &&& final(self).stats.max_buffer_size == old(self).stats.max_buffer_size
                &&& (res.0 matches Err(h) ==> (old(self).hnd().never_halts() ==> (
                cont2.end matches DriveEnd::Failed(f) && h.message@ == fail_text(f)@ && cont2.segs
                    == Seq::<SegView>::empty() && cont2.state == final(self).state_of())))
                &&& (res.0 is Ok ==> (final(self).pending().len() == 0 || (
                !crate::scan::is_line_break(final(self).pending()[0]) && (match final(self).state_of() {
                    SegmentParser::Initial => final(self).pending().len() < 106,
                    SegmentParser::Processing(dl) => find_byte(
                        final(self).pending(),
                        dl.segment,
                    ) is None,
                }))))
            }),
    {
        let ghost w0 = old(self).pending();
        let ghost inp = w0 + tail;
        let ghost cap = self.max_capacity as nat;
        let ghost cont = drive(old(self).state_of(), inp, cap);
        let ghost buf0 = self.buf@;
        let ghost start0 = self.start;
        let ghost w: int = self.end - self.start;
        let window = vstd::slice::slice_subrange(self.buf.as_slice(), self.start, self.end);
        proof {
            assert(window@ == w0);
            assert(inp.subrange(0, w) =~= w0);
            assert(cont.segs.take(0) =~= Seq::<SegView>::empty());
            assert(self.hnd().log() =~= old(self).hnd().log() + cont.segs.take(0));
            assert(inp.skip(0) =~= inp);
            assert(cont.segs =~= cont.segs.take(0) + cont.segs);
        }
        let ghost mut dcount: int = 0;
        let mut off: usize = 0;
        let mut halted: Option<Halt> = None;
        loop
            invariant_except_break
                0 <= off <= w,
                w == window@.len(),
                w == self.end - self.start,
                self.buf@ == buf0,
                self.start == start0,
                buf0 == old(self).buf@,
                start0 == old(self).start,
                window@ == buf0.subrange(start0 as int, start0 + w),
                self.wf(),
                self.max_capacity == old(self).max_capacity,
                self.growth_factor == old(self).growth_factor,
                cap == self.max_capacity as nat,
                self.end == old(self).end,
                w0 == old(self).pending(),
                w0.len() == w,
                inp == w0 + tail,
                inp.len() <= usize::MAX,
                cont == drive(old(self).state_of(), inp, cap),
                window@ == inp.subrange(0, w),
                0 <= dcount <= off,
                dcount <= cont.segs.len(),
                halted is None,
                self.hnd().log() == old(self).hnd().log() + cont.segs.take(dcount),
                old(self).hnd().never_halts() ==> self.hnd().never_halts(),
                old(self).hnd().wf() ==> self.hnd().wf(),
                ({
                    let cont2 = drive(self.state_of(), inp.skip(off as int), cap);
                    &&& cont.segs == cont.segs.take(dcount) + cont2.segs
                    &&& cont.end == cont2.end
                    &&& cont.state == cont2.state
                }),
                self.stats.segments_parsed == old(self).stats.segments_parsed + dcount,
                self.stats.bytes_read == old(self).stats.bytes_read,
                self.stats.buffer_resizes == old(self).stats.buffer_resizes,
                self.stats.max_buffer_size == old(self).stats.max_buffer_size,
                old(self).stats.segments_parsed + w <= usize::MAX,
            ensures
                0 <= off <= w,
                w == self.end - self.start,
                self.buf@ == buf0,
                self.start == start0,
                self.wf(),
                self.max_capacity == old(self).max_capacity,
                self.growth_factor == old(self).growth_factor,
                self.end == old(self).end,
                0 <= dcount <= off,
                dcount <= cont.segs.len(),
                self.hnd().log() == old(self).hnd().log() + cont.segs.take(dcount),
                old(self).hnd().never_halts() ==> self.hnd().never_halts(),
                old(self).hnd().wf() ==> self.hnd().wf(),
                ({
                    let cont2 = drive(self.state_of(), inp.skip(off as int), cap);
                    &&& cont.segs == cont.segs.take(dcount) + cont2.segs
                    &&& cont.end == cont2.end
                    &&& cont.state == cont2.state
                }),
                self.stats.segments_parsed == old(self).stats.segments_parsed + dcount,
                self.stats.bytes_read == old(self).stats.bytes_read,
                self.stats.buffer_resizes == old(self).stats.buffer_resizes,
                self.stats.max_buffer_size == old(self).stats.max_buffer_size,
                match halted {
                    Some(h) => old(self).hnd().never_halts() ==> (drive(
                        self.state_of(),
                        inp.skip(off as int),
                        cap,
                    ).end matches DriveEnd::Failed(f) && h.message@ == fail_text(f)@ && drive(
                        self.state_of(),
                        inp.skip(off as int),
                        cap,
                    ).segs == Seq::<SegView>::empty() && drive(
                        self.state_of(),
                        inp.skip(off as int),
                        cap,
                    ).state == self.state_of()),
                    None => off == w || (!crate::scan::is_line_break(window@[off as int]) && (
                    match self.state_of() {
                        SegmentParser::Initial => w - off < 106,
                        SegmentParser::Processing(dl) => find_byte(
                            window@.subrange(off as int, w),
                            dl.segment,
                        ) is None,
                    })),
                },
            decreases w - off,
        {
            let k = SegmentParser::skip_lf_crlf(window, off);
            proof {
                let wsk = window@.skip(off as int);
                crate::scan::lemma_lead_breaks(wsk);
                assert(forall|j: int|
                    off <= j < off + k ==> crate::scan::is_line_break(#[trigger] inp[j])) by {
                    assert(forall|j: int| off <= j < off + k ==> inp[j] == window@[j]);
                    assert(forall|j: int|
                        off <= j < off + k ==> window@[j] == wsk[j - off]);
                }
                lemma_drive_absorb_breaks(self.state_of(), inp, off as int, k as int, cap);
            }
            off = off + k;
            if off == self.end - self.start {
                break;
            }
            proof {
                assert(window@.skip(off - k)[off - (off - k)] == window@[off as int]);
                assert(!crate::scan::is_line_break(window@[off as int]));
                assert(inp[off as int] == window@[off as int]);
                assert(inp.skip(off as int)[0] == inp[off as int]);
                crate::scan::lemma_lead_breaks(inp.skip(off as int));
                assert(lead_breaks(inp.skip(off as int)) == 0);
                assert(inp.skip(off as int).skip(0) =~= inp.skip(off as int));
            }
            let st = self.parser;
            match st {
                SegmentParser::Initial => {
                    if self.end - self.start - off < 106 {
                        break;
                    }
                    let ghost sfx = inp.skip(off as int);
                    let ghost wsfx = window@.skip(off as int);
                    proof {
                        assert(wsfx =~= sfx.take(w - off));
                        assert(wsfx.take(106) =~= sfx.take(106));
                        lemma_isa_step_take(sfx, wsfx);
                        assert(cap >= 106);
                    }
                    match SegmentParser::parse_isa_segment(window, off, &mut self.handler) {
                        Err(SegmentParserError::Incomplete) => {
                            proof {
                                assert(false);
                            }
                            break;
                        },
                        Err(SegmentParserError::Halt(h)) => {
                            halted = Some(h);
                            proof {
                                reveal(drive);
                                match isa_step(sfx) {
                                    IsaOut::Fail(f) => {
                                        assert(h.message@ == fail_text(f)@);
                                    },
                                    IsaOut::Seg(_, _) => {
                                    },
                                    IsaOut::NeedMore => {
                                        assert(false);
                                    },
                                }
                            }
                            break;
                        },
                        Ok((n, dd)) => {
                            let ghost sv = isa_step(sfx)->Seg_0;
                            self.parser = SegmentParser::Processing(dd);
                            proof {
                                reveal(drive);
                                let t = drive(SegmentParser::Processing(dd), sfx.skip(106), cap);
                                let c2 = drive(SegmentParser::Initial, sfx, cap);
                                assert(c2.segs == seq![sv] + t.segs);
                                assert(cont.segs[dcount] == sv);
                                assert(cont.segs.take(dcount + 1) =~= cont.segs.take(dcount)
                                    + seq![sv]);
                                assert((old(self).hnd().log() + cont.segs.take(dcount)).push(sv)
                                    =~= old(self).hnd().log() + cont.segs.take(dcount + 1));
                                assert(cont.segs =~= cont.segs.take(dcount + 1) + t.segs);
                                assert(sfx.skip(106) =~= inp.skip(off + 106));
                                dcount = dcount + 1;
                            }
                            off = off + n;
                            if self.stats.segments_parsed < usize::MAX {
                                self.stats.segments_parsed = self.stats.segments_parsed + 1;
                            } else {
                                proof {
                                    assert(false);
                                }
                            }
                        },
                    }
                },
                SegmentParser::Processing(dl) => {
                    let ghost sfx = inp.skip(off as int);
                    let ghost wsfx = window@.skip(off as int);
                    proof {
                        assert(wsfx =~= sfx.take(w - off));
                    }
                    match SegmentParser::parse_regular_segment(
                        window,
                        off,
                        dl,
                        &mut self.handler,
                    ) {
                        Err(SegmentParserError::Incomplete) => {
                            break;
                        },
                        Err(SegmentParserError::Halt(h)) => {
                            halted = Some(h);
                            proof {
                                reveal(drive);
                                match reg_step(wsfx, dl) {
                                    RegOut::Fail(f) => {
                                        lemma_find_byte(wsfx, dl.segment);
                                        lemma_reg_step_take(sfx, wsfx, dl);
                                        let t0 = find_byte(sfx, dl.segment)->Some_0;
                                        assert(t0 + 1 <= w - off);
                                        assert(h.message@ == fail_text(f)@);
                                    },
                                    RegOut::Seg(_, _) => {
                                    },
                                    RegOut::NeedMore => {
                                        assert(false);
                                    },
                                }
                            }
                            break;
                        },
                        Ok(c) => {
                            let ghost sv = reg_step(sfx, dl)->Seg_0;
                            proof {
                                reveal(drive);
                                lemma_find_byte(wsfx, dl.segment);
                                lemma_reg_step_take(sfx, wsfx, dl);
                                let t0 = find_byte(sfx, dl.segment)->Some_0;
                                assert(c == t0 + 1);
                                assert(c <= w - off);
                                assert(t0 + 1 <= cap);
                                let t = drive(st, sfx.skip(c as int), cap);
                                let c2 = drive(st, sfx, cap);
                                assert(c2.segs == seq![sv] + t.segs);
                                assert(cont.segs[dcount] == sv);
                                assert(cont.segs.take(dcount + 1) =~= cont.segs.take(dcount)
                                    + seq![sv]);
                                assert((old(self).hnd().log() + cont.segs.take(dcount)).push(sv)
                                    =~= old(self).hnd().log() + cont.segs.take(dcount + 1));
                                assert(cont.segs =~= cont.segs.take(dcount + 1) + t.segs);
                                assert(sfx.skip(c as int) =~= inp.skip(off + c));
                                dcount = dcount + 1;
                            }
                            off = off + c;
                            if self.stats.segments_parsed < usize::MAX {
                                self.stats.segments_parsed = self.stats.segments_parsed + 1;
                            } else {
                                proof {
                                    assert(false);
                                }
                            }
                        },
                    }
                },
            }
        }
        self.start = self.start + off;
        proof {
            assert(self.pending() =~= window@.subrange(off as int, w));
            assert(self.pending() =~= w0.skip(off as int));
            assert(self.pending() + tail =~= inp.skip(off as int));
        }
        match halted {
            Some(h) => (Err(h), Ghost(dcount)),
            None => (Ok(()), Ghost(dcount)),
        }
    }

    /// After a drain left the buffer without a complete segment: stop with
    /// the final verdict if the input is over or the segment cannot fit,
    /// grow the buffer if it is full but may still grow, and otherwise ask
    /// for more bytes.
    #[verifier::rlimit(100)]
    fn settle(&mut self, exhausted: bool, total_read: usize, Ghost(tail): Ghost<Seq<u8>>) -> (r:
        Option<Result<usize, StreamingParserError>>)
        requires
            old(self).wf(),
            exhausted ==> tail.len() == 0 && old(self).end < old(self).buf@.len(),
            old(self).pending().len() == 0 || (!crate::scan::is_line_break(
                old(self).pending()[0],
            ) && (match old(self).state_of() {
                SegmentParser::Initial => old(self).pending().len() < 106,
                SegmentParser::Processing(dl) => find_byte(
                    old(self).pending(),
                    dl.segment,
                ) is None,
            })),
        ensures
            ({
                let rem = old(self).pending() + tail;
                let cont = drive(old(self).state_of(), rem, old(self).max_capacity as nat);
                &&& final(self).wf()
                &&& final(self).handler == old(self).handler
                &&& final(self).parser == old(self).parser
                &&& final(self).pending() == old(self).pending()
                &&& final(self).max_capacity == old(self).max_capacity
                &&& final(self).growth_factor == old(self).growth_factor
                &&& final(self).stats.bytes_read == old(self).stats.bytes_read
                &&& final(self).stats.segments_parsed == old(self).stats.segments_parsed
                &&& final(self).stats.buffer_resizes >= old(self).stats.buffer_resizes
                &&& final(self).buf@.len() >= old(self).buf@.len()
                &&& final(self).end == old(self).end
                &&& final(self).start == old(self).start
                &&& (exhausted ==> r is Some)
                &&& (r is None ==> final(self).buf@.len() > old(self).buf@.len() || old(self).end
                    - old(self).start < old(self).buf@.len())
                &&& (r is Some ==> cont.state == old(self).state_of())
                &&& (match r {
                    None => true,
                    Some(res) => match res {
                        Ok(n) => n == total_read && cont.end is Done && cont.segs == Seq::<
                            SegView,
                        >::empty() && old(self).pending().len() == 0 && tail.len() == 0,
                        Err(e) => (e matches StreamingParserError::Halt(h) && cont.segs == Seq::<
                            SegView,
                        >::empty() && ((cont.end is ShortInput && h.message@
                            == "incomplete segment at end of input"@) || (cont.end is TooBig
                            && h.message@ == "segment exceeds maximum buffer size"@
                            && final(self).buf@.len() == old(self).max_capacity))),
                    },
                })
            }),
    {
        let ghost rem = old(self).pending() + tail;
        let ghost cap = self.max_capacity as nat;
        if exhausted {
            proof {
                assert(rem =~= self.pending());
            }
            if self.start == self.end {
                proof {
                    reveal(drive);
                    assert(rem =~= Seq::<u8>::empty());
                    assert(lead_breaks(rem) == 0);
                    assert(rem.skip(0) =~= rem);
                    let cont = drive(self.state_of(), rem, cap);
                    assert(cont.end is Done && cont.segs =~= Seq::<SegView>::empty());
                }
                return Some(Ok(total_read));
            } else {
                proof {
                    assert(rem.len() < cap);
                    lemma_drive_short(self.state_of(), rem, cap);
                }
                return Some(
                    Err(
                        StreamingParserError::Halt(
                            Halt::new("incomplete segment at end of input"),
                        ),
                    ),
                );
            }
        }
        if self.end - self.start == self.buf.len() {
            if self.buf.len() == self.max_capacity {
                proof {
                    assert(rem.len() >= cap);
                    assert(self.pending().len() == cap);
                    assert(self.pending() =~= rem.take(self.pending().len() as int));
                    match self.state_of() {
                        SegmentParser::Initial => {
                            assert(cap < 106);
                        },
                        SegmentParser::Processing(dl) => {
                            lemma_find_byte_beyond(rem, self.pending(), dl.segment);
                            lemma_find_byte(rem, dl.segment);
                        },
                    }
                    lemma_drive_too_big(self.state_of(), rem, cap);
                }
                return Some(
                    Err(
                        StreamingParserError::Halt(
                            Halt::new("segment exceeds maximum buffer size"),
                        ),
                    ),
                );
            }
            self.grow();
        }
        None
    }

    /// Drive the byte source to exhaustion: read, parse, deliver, compact
    /// and grow as needed, and report the total bytes read.
    ///
    /// The outcome is pinned by [`drive`] over the pending bytes followed by
    /// the source's whole stream, under the capacity cap alone: however the
    /// source chunks its bytes, the handler sees the same segments and the
    /// run ends the same way.
    #[verifier::rlimit(100)]
    pub fn parse_reader<R: ByteSource>(&mut self, reader: &mut R) -> (r: Result<
        usize,
        StreamingParserError,
    >)
        requires
            old(self).wf(),
            old(self).pending().len() + old(reader).stream().len() <= usize::MAX,
            old(self).recorded().bytes_read + old(reader).stream().len() <= usize::MAX,
            old(self).recorded().segments_parsed + old(self).pending().len() + old(reader).stream().len() <= usize::MAX,
        ensures
            final(self).wf(),
            final(self).cap() == old(self).cap(),
            old(self).hnd().never_halts() ==> final(self).hnd().never_halts(),
            old(self).hnd().wf() ==> final(self).hnd().wf(),
            ({
                let full = old(self).pending() + old(reader).stream();
                let dr = drive(old(self).state_of(), full, old(self).cap());
                &&& (r matches Ok(n) ==> dr.end is Done && n == old(reader).stream().len()
                    && final(reader).stream().len() == 0 && final(self).hnd().log() == old(self).hnd().log() + dr.segs && final(self).state_of() == dr.state && final(self).pending().len() == 0)
                &&& (exists|j: int|
                    0 <= j <= dr.segs.len() && final(self).hnd().log() == old(self).hnd().log()
                        + dr.segs.take(j))
                &&& ((old(self).hnd().never_halts() && !(r matches Err(
                    StreamingParserError::Source(_),
                ))) ==> final(self).hnd().log() == old(self).hnd().log() + dr.segs && final(self).state_of() == dr.state && (match dr.end {
                    DriveEnd::Done => r matches Ok(n) && n == old(reader).stream().len(),
                    DriveEnd::ShortInput => r matches Err(e) && (e matches
                        StreamingParserError::Halt(h) && h.message@
                        == "incomplete segment at end of input"@),
                    DriveEnd::TooBig => r matches Err(e) && (e matches StreamingParserError::Halt(
                        h,
                    ) && h.message@ == "segment exceeds maximum buffer size"@),
                    DriveEnd::Failed(f) => r matches Err(e) && (e matches
                        StreamingParserError::Halt(h) && h.message@ == fail_text(f)@),
                }))
                &&& final(self).recorded().segments_parsed - old(self).recorded().segments_parsed
                    == final(self).hnd().log().len() - old(self).hnd().log().len()
                &&& final(self).recorded().bytes_read == old(self).recorded().bytes_read + (old(reader).stream().len() - final(reader).stream().len())
            }),
    {
        let ghost full = old(self).pending() + old(reader).stream();
        let ghost cap = old(self).cap();
        let ghost d0 = drive(old(self).state_of(), full, cap);
        let mut total_read: usize = 0;
        let ghost mut pos: int = 0;
        let ghost mut done: int = 0;
        proof {
            assert(full.subrange(0, self.pending().len() as int) =~= self.pending());
            assert(full.skip(self.pending().len() as int) =~= old(reader).stream());
            assert(d0.segs.take(0) =~= Seq::<SegView>::empty());
            assert(self.hnd().log() =~= old(self).hnd().log() + d0.segs.take(0));
            assert(full.skip(0) =~= full);
            assert(d0.segs =~= d0.segs.take(0) + d0.segs);
        }
        loop
            invariant
                self.wf(),
                self.max_capacity == old(self).max_capacity,
                self.growth_factor == old(self).growth_factor,
                cap == self.max_capacity as nat,
                full == old(self).pending() + old(reader).stream(),
                full.len() <= usize::MAX,
                d0 == drive(old(self).state_of(), full, cap),
                0 <= done <= pos,
                pos + self.pending().len() <= full.len(),
                self.pending() == full.subrange(pos, pos + self.pending().len()),
                reader.stream() == full.skip(pos + self.pending().len()),
                total_read == old(reader).stream().len() - reader.stream().len(),
                done <= d0.segs.len(),
                self.hnd().log() == old(self).hnd().log() + d0.segs.take(done),
                old(self).hnd().never_halts() ==> self.hnd().never_halts(),
                old(self).hnd().wf() ==> self.hnd().wf(),
                ({
                    let cont = drive(self.state_of(), full.skip(pos), cap);
                    &&& d0.segs == d0.segs.take(done) + cont.segs
                    &&& d0.end == cont.end
                    &&& d0.state == cont.state
                }),
                self.recorded().bytes_read == old(self).recorded().bytes_read + total_read,
                self.recorded().segments_parsed == old(self).recorded().segments_parsed + done,
                self.recorded().buffer_resizes >= old(self).recorded().buffer_resizes,
                self.recorded().max_buffer_size >= old(self).recorded().max_buffer_size,
                old(self).recorded().bytes_read + old(reader).stream().len() <= usize::MAX,
                old(self).recorded().segments_parsed + full.len() <= usize::MAX,
            decreases reader.stream().len() + (full.len() - pos) + (self.max_capacity
                - self.buf@.len()),
        {
            let ghost m_stream = reader.stream().len() as int;
            let ghost m_pos = pos;
            let ghost m_cap = self.buf@.len() as int;
            // Compact so the read below has room whenever room can be made.
            if self.start > 0 && (self.end == self.buf.len() || self.start > self.buf.len() / 2) {
                self.make_space();
            }
            let ghost space_before = self.end < self.buf@.len();
            proof {
                if !space_before {
                    assert(self.start == 0);
                }
            }
            // Read the next chunk; a zero count with space on offer means
            // the source is exhausted.
            let mut exhausted = false;
            let ghost mut got_bytes = false;
            if self.end < self.buf.len() {
                let ghost pre_stream = reader.stream();
                let ghost pre_avail: int = self.end - self.start;
                match self.refill(reader) {
                    Err(e) => {
                        return Err(StreamingParserError::Source(e));
                    },
                    Ok(n) => {
                        if n == 0 {
                            exhausted = true;
                        } else {
                            proof {
                                got_bytes = true;
                                assert(full.subrange(pos, pos + pre_avail + n) =~= full.subrange(
                                    pos,
                                    pos + pre_avail,
                                ) + full.subrange(pos + pre_avail, pos + pre_avail + n));
                                assert(pre_stream.take(n as int) =~= full.subrange(
                                    pos + pre_avail,
                                    pos + pre_avail + n,
                                ));
                                assert(reader.stream() =~= full.skip(pos + pre_avail + n));
                            }
                            total_read = total_read + n;
                            self.stats.bytes_read = self.stats.bytes_read + n;
                        }
                    },
                }
            }
            proof {
                if exhausted {
                    assert(reader.stream().len() == 0);
                    assert(self.end < self.buf@.len());
                }
            }
            // Drain every complete segment the buffer holds.
            let ghost tail = reader.stream();
            let ghost pre_start: int = self.start as int;
            let ghost pre_state = self.parser;
            let ghost pre_pending = self.pending();
            proof {
                assert(pre_pending + tail =~= full.skip(pos));
            }
            let (dres, Ghost(dc)) = self.drain(Ghost(tail));
            let ghost offc: int = self.start - pre_start;
            proof {
                let cont1 = drive(pre_state, full.skip(pos), cap);
                assert(cont1 == drive(pre_state, pre_pending + tail, cap));
                let cont2 = drive(self.state_of(), self.pending() + tail, cap);
                lemma_chain_prefix(
                    d0.segs,
                    done,
                    dc,
                    cont1.segs,
                    cont2.segs,
                    old(self).hnd().log(),
                    self.hnd().log(),
                );
                assert(self.pending() =~= pre_pending.skip(offc));
                assert(self.pending() + tail =~= full.skip(pos + offc));
                assert(cont2 == drive(self.state_of(), full.skip(pos + offc), cap));
                assert(self.pending() =~= full.subrange(pos + offc, pos + offc
                    + self.pending().len()));
                pos = pos + offc;
                done = done + dc;
            }
            match dres {
                Err(h) => {
                    return Err(StreamingParserError::Halt(h));
                },
                Ok(()) => {
                },
            }
            // Termination and growth.
            let ghost pre_settle_len = self.buf@.len();
            proof {
                assert(self.pending() + tail =~= full.skip(pos));
            }
            let ghost settle_start: int = self.start as int;
            let ghost settle_avail: int = self.end - self.start;
            let ghost sp = self.pending();
            let ghost sst = self.parser;
            match self.settle(exhausted, total_read, Ghost(tail)) {
                Some(res) => {
                    proof {
                        assert(self.pending() == sp && self.parser == sst);
                        assert(drive(sst, sp + tail, cap).segs == Seq::<SegView>::empty());
                        assert(sp + tail =~= full.skip(pos));
                        let cont = drive(self.state_of(), full.skip(pos), cap);
                        assert(cont == drive(sst, sp + tail, cap));
                        assert(cont.segs == Seq::<SegView>::empty());
                        assert(d0.segs =~= d0.segs.take(done));
                        if res is Ok {
                            assert(total_read == old(reader).stream().len());
                        }
                    }
                    return res;
                },
                None => {
                },
            }
            proof {
                assert(reader.stream().len() <= m_stream);
                assert(pos >= m_pos);
                assert(self.buf@.len() >= m_cap);
                if !got_bytes && self.buf@.len() == pre_settle_len {
                    assert(!space_before);
                    assert(pre_start == 0);
                    assert(self.end == self.buf@.len());
                    assert(settle_avail < self.buf@.len());
                    assert(settle_start >= 1);
                    assert(offc >= 1);
                    assert(pos > m_pos);
                }
            }
        }
    }

    /// Grow the buffer by the growth factor, clamped at the capacity cap.
    fn grow(&mut self)
        requires
            old(self).wf(),
            old(self).buf@.len() < old(self).max_capacity,
        ensures
            final(self).wf(),
            final(self).pending() == old(self).pending(),
            final(self).start == old(self).start,
            final(self).end == old(self).end,
            old(self).buf@.len() < final(self).buf@.len() <= old(self).max_capacity,
            final(self).parser == old(self).parser,
            final(self).handler == old(self).handler,
            final(self).max_capacity == old(self).max_capacity,
            final(self).growth_factor == old(self).growth_factor,
            final(self).stats.bytes_read == old(self).stats.bytes_read,
            final(self).stats.segments_parsed == old(self).stats.segments_parsed,
            final(self).stats.buffer_resizes >= old(self).stats.buffer_resizes,
            final(self).stats.max_buffer_size == final(self).buf@.len(),
    {
        let len = self.buf.len();
        let target: usize = if len > self.max_capacity / self.growth_factor {
            self.max_capacity
        } else {
            proof {
                vstd::arithmetic::div_mod::lemma_fundamental_div_mod(
                    self.max_capacity as int,
                    self.growth_factor as int,
                );
                vstd::arithmetic::mul::lemma_mul_inequality(
                    len as int,
                    (self.max_capacity / self.growth_factor) as int,
                    self.growth_factor as int,
                );
                vstd::arithmetic::mul::lemma_mul_is_commutative(
                    (self.max_capacity / self.growth_factor) as int,
                    self.growth_factor as int,
                );
                assert(len * self.growth_factor <= self.max_capacity);
            }
            len * self.growth_factor
        };
        proof {
            if len <= self.max_capacity / self.growth_factor {
                vstd::arithmetic::mul::lemma_mul_inequality(
                    2,
                    self.growth_factor as int,
                    len as int,
                );
                vstd::arithmetic::mul::lemma_mul_is_commutative(
                    self.growth_factor as int,
                    len as int,
                );
                assert(len * self.growth_factor >= 2 * len);
            }
        }
        while self.buf.len() < target
            invariant
                old(self).buf@.len() <= self.buf@.len() <= target,
                target <= self.max_capacity,
                self.start == old(self).start,
                self.end == old(self).end,
                self.parser == old(self).parser,
                self.handler == old(self).handler,
                self.max_capacity == old(self).max_capacity,
                self.growth_factor == old(self).growth_factor,
                self.stats == old(self).stats,
                forall|j: int| 0 <= j < old(self).buf@.len() ==> self.buf@[j] == old(self).buf@[j],
            decreases target - self.buf@.len(),
        {
            self.buf.push(0);
        }
        if self.stats.buffer_resizes < usize::MAX {
            self.stats.buffer_resizes = self.stats.buffer_resizes + 1;
        }
        self.stats.max_buffer_size = self.buf.len();
        proof {
            assert(self.pending() =~= old(self).pending());
        }
    }
}

} // verus!
