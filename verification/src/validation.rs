//! Composable structural validation for X12 interchanges.
//!
//! Validators observe segments as they are parsed and accumulate findings in
//! bounded lists instead of interrupting the parse.  The suite bundles an
//! ordered list of validators and is itself a segment handler.

use vstd::prelude::*;
use vstd::string::StringExecFns;

use crate::parser::{Halt, SegView, Segment, SegmentHandler};

verus! {

broadcast use vstd::array::group_array_axioms;

/// Most findings any one validator keeps; further findings are dropped.
pub const MAX_ERRORS: usize = 1000;

/// How severe a finding is.
#[derive(Debug, Clone, Copy, PartialEq, Eq, Structural)]
pub enum Severity {
    /// Violates the standard; the transaction should be rejected.
    Error,
    /// Non-standard but processable.
    Warning,
    /// Informational only.
    Info,
}

/// The closed set of finding kinds.  The validators here produce only
/// `InvalidSyntax`, `SegmentSequence`, `ControlNumberMismatch` and
/// `CountMismatch`; the rest are reserved for extensions.
#[derive(Debug, Clone, Copy, PartialEq, Eq, Structural)]
pub enum ErrorKind {
    InvalidSyntax,
    MissingSegment,
    SegmentSequence,
    InvalidBusinessRule,
    ImplementationLimit,
    InvalidCodeValue,
    InvalidDataValue,
    OutOfRange,
    MissingRequiredElement,
    UnexpectedElement,
    ControlNumberMismatch,
    CountMismatch,
    InvalidHierarchy,
}

/// The reporting text of each finding kind.
pub open spec fn kind_label(k: ErrorKind) -> &'static str {
    match k {
        ErrorKind::InvalidSyntax => "Invalid Syntax",
        ErrorKind::MissingSegment => "Missing Segment",
        ErrorKind::SegmentSequence => "Segment Sequence Error",
        ErrorKind::InvalidBusinessRule => "Invalid Business Rule",
        ErrorKind::ImplementationLimit => "Implementation Limit Exceeded",
        ErrorKind::InvalidCodeValue => "Invalid Code Value",
        ErrorKind::InvalidDataValue => "Invalid Data Value",
        ErrorKind::OutOfRange => "Value Out of Range",
        ErrorKind::MissingRequiredElement => "Missing Required Element",
        ErrorKind::UnexpectedElement => "Unexpected Element",
        ErrorKind::ControlNumberMismatch => "Control Number Mismatch",
        ErrorKind::CountMismatch => "Count Mismatch",
        ErrorKind::InvalidHierarchy => "Invalid Hierarchy",
    }
}

impl ErrorKind {
    /// The kind's reporting text.
    pub fn label(&self) -> (r: &'static str)
        ensures
            r@ == kind_label(*self)@,
    {
        match self {
            ErrorKind::InvalidSyntax => "Invalid Syntax",
            ErrorKind::MissingSegment => "Missing Segment",
            ErrorKind::SegmentSequence => "Segment Sequence Error",
            ErrorKind::InvalidBusinessRule => "Invalid Business Rule",
            ErrorKind::ImplementationLimit => "Implementation Limit Exceeded",
            ErrorKind::InvalidCodeValue => "Invalid Code Value",
            ErrorKind::InvalidDataValue => "Invalid Data Value",
            ErrorKind::OutOfRange => "Value Out of Range",
            ErrorKind::MissingRequiredElement => "Missing Required Element",
            ErrorKind::UnexpectedElement => "Unexpected Element",
            ErrorKind::ControlNumberMismatch => "Control Number Mismatch",
            ErrorKind::CountMismatch => "Count Mismatch",
            ErrorKind::InvalidHierarchy => "Invalid Hierarchy",
        }
    }
}

/// The mathematical content of one finding.
#[verifier::ext_equal]
pub ghost struct ErrView {
    pub severity: Severity,
    pub kind: ErrorKind,
    pub segment_id: Seq<u8>,
    pub element: Option<int>,
    pub message: Seq<char>,
    pub position: Option<int>,
}

/// A segment identifier truncated or zero-padded to exactly three bytes.
pub open spec fn pad3(id: Seq<u8>) -> Seq<u8> {
    seq![
        if id.len() > 0 {
            id[0]
        } else {
            0u8
        },
        if id.len() > 1 {
            id[1]
        } else {
            0u8
        },
        if id.len() > 2 {
            id[2]
        } else {
            0u8
        },
    ]
}

/// One validation finding with its context.
#[derive(Debug, Clone)]
pub struct ValidationError {
    /// Severity of the finding.
    pub severity: Severity,
    /// Kind of the finding.
    pub kind: ErrorKind,
    /// Identifier of the segment the finding is about, zero-padded.
    pub segment_id: [u8; 3],
    /// Element position the finding is about, if element-level.
    pub element: Option<usize>,
    /// Human-readable message.
    pub message: String,
    /// Position of the segment in the stream, counted from one.
    pub segment_position: Option<usize>,
}

impl View for ValidationError {
    type V = ErrView;

    open spec fn view(&self) -> ErrView {
        ErrView {
            severity: self.severity,
            kind: self.kind,
            segment_id: self.segment_id@,
            element: match self.element {
                Some(e) => Some(e as int),
                None => None,
            },
            message: self.message@,
            position: match self.segment_position {
                Some(p) => Some(p as int),
                None => None,
            },
        }
    }
}

impl ValidationError {
    /// A new finding about the segment whose identifier bytes are given;
    /// only the first three bytes of the identifier are kept.
    pub fn new(
        severity: Severity,
        kind: ErrorKind,
        segment_id: &[u8],
        element: Option<usize>,
        message: String,
    ) -> (e: Self)
        ensures
            e@ == (ErrView {
                severity,
                kind,
                segment_id: pad3(segment_id@),
                element: match element {
                    Some(x) => Some(x as int),
                    None => None::<int>,
                },
                message: message@,
                position: None::<int>,
            }),
    {
        let n = segment_id.len();
        let b0: u8 = if n > 0 {
            *vstd::slice::slice_index_get(segment_id, 0)
        } else {
            0
        };
        let b1: u8 = if n > 1 {
            *vstd::slice::slice_index_get(segment_id, 1)
        } else {
            0
        };
        let b2: u8 = if n > 2 {
            *vstd::slice::slice_index_get(segment_id, 2)
        } else {
            0
        };
        let id: [u8; 3] = [b0, b1, b2];
        proof {
            assert(id@ =~= pad3(segment_id@));
        }
        ValidationError {
            severity,
            kind,
            segment_id: id,
            element,
            message,
            segment_position: None,
        }
    }

    /// The identifier as a string, with any zero padding removed; bytes that
    /// are not UTF-8 give `"???"`.
    pub fn segment_id_str(&self) -> (r: &str)
        ensures
            ({
                let trimmed = self.segment_id@.take(id_len(self.segment_id@));
                match crate::parser::utf8_decode(trimmed) {
                    Some(s) => r@ == s,
                    None => r@ == "???"@,
                }
            }),
    {
        let n: usize = if self.segment_id[0] == 0 {
            0
        } else if self.segment_id[1] == 0 {
            1
        } else if self.segment_id[2] == 0 {
            2
        } else {
            3
        };
        proof {
            assert(id_len(self.segment_id@) == n);
        }
        let s = self.segment_id.as_slice();
        let trimmed = vstd::slice::slice_subrange(s, 0, n);
        proof {
            assert(trimmed@ =~= self.segment_id@.take(n as int));
        }
        match crate::parser::utf8_to_str(trimmed) {
            Some(st) => st,
            None => "???",
        }
    }
}

/// Length of the identifier before its zero padding.
pub open spec fn id_len(id: Seq<u8>) -> int
    recommends
        id.len() == 3,
{
    if id.len() >= 3 {
        if id[0] == 0 {
            0
        } else if id[1] == 0 {
            1
        } else if id[2] == 0 {
            2
        } else {
            3
        }
    } else {
        0
    }
}

/// The decimal digits of `n`, most significant first.
pub open spec fn dec_digits(n: nat) -> Seq<char>
    decreases n,
{
    if n < 10 {
        seq![digit_char(n)]
    } else {
        dec_digits(n / 10).push(digit_char(n % 10))
    }
}

/// The character for one decimal digit.
pub open spec fn digit_char(d: nat) -> char
    recommends
        d < 10,
{
    if d == 0 {
        '0'
    } else if d == 1 {
        '1'
    } else if d == 2 {
        '2'
    } else if d == 3 {
        '3'
    } else if d == 4 {
        '4'
    } else if d == 5 {
        '5'
    } else if d == 6 {
        '6'
    } else if d == 7 {
        '7'
    } else if d == 8 {
        '8'
    } else {
        '9'
    }
}

fn digit_str(d: u32) -> (r: &'static str)
    requires
        d < 10,
    ensures
        r@ == seq![digit_char(d as nat)],
{
    proof {
        reveal_strlit("0");
        reveal_strlit("1");
        reveal_strlit("2");
        reveal_strlit("3");
        reveal_strlit("4");
        reveal_strlit("5");
        reveal_strlit("6");
        reveal_strlit("7");
        reveal_strlit("8");
        reveal_strlit("9");
    }
    let r = if d == 0 {
        "0"
    } else if d == 1 {
        "1"
    } else if d == 2 {
        "2"
    } else if d == 3 {
        "3"
    } else if d == 4 {
        "4"
    } else if d == 5 {
        "5"
    } else if d == 6 {
        "6"
    } else if d == 7 {
        "7"
    } else if d == 8 {
        "8"
    } else {
        "9"
    };
    proof {
        assert(r@ =~= seq![digit_char(d as nat)]);
    }
    r
}

/// Render a number in decimal, for messages.
fn u32_decimal(n: u32) -> (s: String)
    ensures
        s@ == dec_digits(n as nat),
    decreases n,
{
    if n < 10 {
        digit_str(n).to_owned()
    } else {
        let mut s = u32_decimal(n / 10);
        s.append(digit_str(n % 10));
        s
    }
}

/// Render a count in decimal, for messages.
fn usize_decimal(n: usize) -> (s: String)
    ensures
        s@ == dec_digits(n as nat),
    decreases n,
{
    if n < 10 {
        let d = n as u32;
        digit_str(d).to_owned()
    } else {
        let mut s = usize_decimal(n / 10);
        let d = (n % 10) as u32;
        s.append(digit_str(d));
        s
    }
}

/// Leading space bytes of `s`.
pub open spec fn lead_spaces(s: Seq<u8>) -> nat
    decreases s.len(),
{
    if s.len() > 0 && s[0] == 32u8 {
        1 + lead_spaces(s.skip(1))
    } else {
        0
    }
}

/// Trailing space bytes of `s`.
pub open spec fn trail_spaces(s: Seq<u8>) -> nat
    decreases s.len(),
{
    if s.len() > 0 && s[s.len() - 1] == 32u8 {
        1 + trail_spaces(s.take(s.len() - 1))
    } else {
        0
    }
}

/// `s` with leading and trailing spaces removed.
pub open spec fn space_trimmed(s: Seq<u8>) -> Seq<u8> {
    let front = s.skip(lead_spaces(s) as int);
    front.take(front.len() - trail_spaces(front))
}

/// Every byte is an ASCII decimal digit.
pub open spec fn all_digits(s: Seq<u8>) -> bool {
    forall|i: int| 0 <= i < s.len() ==> 48 <= #[trigger] s[i] <= 57
}

/// The number the digit bytes denote.
pub open spec fn digits_value(s: Seq<u8>) -> nat
    decreases s.len(),
{
    if s.len() == 0 {
        0
    } else {
        (digits_value(s.take(s.len() - 1)) * 10 + (s[s.len() - 1] - 48)) as nat
    }
}

/// How a control number is read: spaces around it are ignored, every
/// remaining byte must be a decimal digit, and the value must fit; an empty
/// remainder reads as zero.
pub open spec fn spec_parse_u32(s: Seq<u8>) -> Option<u32> {
    let t = space_trimmed(s);
    if all_digits(t) && digits_value(t) <= u32::MAX {
        Some(digits_value(t) as u32)
    } else {
        None
    }
}

proof fn lemma_lead_spaces(s: Seq<u8>)
    ensures
        lead_spaces(s) <= s.len(),
        forall|i: int| 0 <= i < lead_spaces(s) ==> #[trigger] s[i] == 32u8,
        lead_spaces(s) < s.len() ==> s[lead_spaces(s) as int] != 32u8,
    decreases s.len(),
{
    if s.len() > 0 && s[0] == 32u8 {
        lemma_lead_spaces(s.skip(1));
        assert forall|i: int| 0 <= i < lead_spaces(s) implies #[trigger] s[i] == 32u8 by {
            if i > 0 {
                assert(s.skip(1)[i - 1] == s[i]);
            }
        }
        if lead_spaces(s) < s.len() {
            assert(s.skip(1)[lead_spaces(s) - 1] == s[lead_spaces(s) as int]);
        }
    }
}

proof fn lemma_trail_spaces(s: Seq<u8>)
    ensures
        trail_spaces(s) <= s.len(),
        forall|i: int| s.len() - trail_spaces(s) <= i < s.len() ==> #[trigger] s[i] == 32u8,
        trail_spaces(s) < s.len() ==> s[s.len() - trail_spaces(s) - 1] != 32u8,
    decreases s.len(),
{
    if s.len() > 0 && s[s.len() - 1] == 32u8 {
        lemma_trail_spaces(s.take(s.len() - 1));
        assert(forall|i: int| 0 <= i < s.len() - 1 ==> s.take(s.len() - 1)[i] == s[i]);
    }
}

proof fn lemma_lead_spaces_is(s: Seq<u8>, k: int)
    requires
        0 <= k <= s.len(),
        forall|i: int| 0 <= i < k ==> #[trigger] s[i] == 32u8,
        k < s.len() ==> s[k] != 32u8,
    ensures
        lead_spaces(s) == k,
    decreases s.len(),
{
    if s.len() > 0 && s[0] == 32u8 {
        assert(forall|i: int| 0 <= i < k - 1 ==> s.skip(1)[i] == s[i + 1]);
        if k < s.len() {
            assert(s.skip(1)[k - 1] == s[k]);
        }
        lemma_lead_spaces_is(s.skip(1), k - 1);
    }
}

proof fn lemma_trail_spaces_is(s: Seq<u8>, k: int)
    requires
        0 <= k <= s.len(),
        forall|i: int| s.len() - k <= i < s.len() ==> #[trigger] s[i] == 32u8,
        k < s.len() ==> s[s.len() - k - 1] != 32u8,
    ensures
        trail_spaces(s) == k,
    decreases s.len(),
{
    if s.len() > 0 && s[s.len() - 1] == 32u8 {
        let t = s.take(s.len() - 1);
        assert(forall|i: int| 0 <= i < s.len() - 1 ==> t[i] == s[i]);
        lemma_trail_spaces_is(t, k - 1);
    }
}

/// A longer digit string denotes at least as large a number.
proof fn lemma_digits_value_prefix(s: Seq<u8>, j: int)
    requires
        0 <= j <= s.len(),
        all_digits(s),
    ensures
        digits_value(s.take(j)) <= digits_value(s),
    decreases s.len() - j,
{
    if j < s.len() {
        lemma_digits_value_prefix(s, j + 1);
        let t = s.take(j + 1);
        assert(t.take(t.len() - 1) =~= s.take(j));
        assert(t[t.len() - 1] == s[j]);
        assert(digits_value(t) == digits_value(s.take(j)) * 10 + (s[j] - 48));
        assert(digits_value(s.take(j)) <= digits_value(s.take(j + 1)));
    } else {
        assert(s.take(j) =~= s);
    }
}

/// Read a control number: ignore surrounding spaces, reject any non-digit
/// and any value that does not fit; an empty remainder reads as zero.
pub fn parse_control_number(bytes: &[u8]) -> (r: Option<u32>)
    ensures
        r == spec_parse_u32(bytes@),
{
    let len = bytes.len();
    let mut start: usize = 0;
    while start < len && *vstd::slice::slice_index_get(bytes, start) == 32
        invariant
            start <= len,
            len == bytes@.len(),
            forall|i: int| 0 <= i < start ==> #[trigger] bytes@[i] == 32u8,
        decreases len - start,
    {
        start = start + 1;
    }
    let mut stop: usize = len;
    while stop > start && *vstd::slice::slice_index_get(bytes, stop - 1) == 32
        invariant
            start <= stop <= len,
            len == bytes@.len(),
            forall|i: int| 0 <= i < start ==> #[trigger] bytes@[i] == 32u8,
            forall|i: int| stop <= i < len ==> #[trigger] bytes@[i] == 32u8,
        decreases stop,
    {
        stop = stop - 1;
    }
    let ghost t = space_trimmed(bytes@);
    proof {
        lemma_lead_spaces_is(bytes@, start as int);
        let front = bytes@.skip(start as int);
        assert(forall|i: int| 0 <= i < front.len() ==> front[i] == bytes@[i + start]);
        lemma_trail_spaces_is(front, len - stop);
        assert(t =~= bytes@.subrange(start as int, stop as int));
    }
    let mut value: u32 = 0;
    let mut i = start;
    while i < stop
        invariant
            start <= i <= stop <= len,
            len == bytes@.len(),
            t == bytes@.subrange(start as int, stop as int),
            t == space_trimmed(bytes@),
            all_digits(t.take(i - start)),
            value == digits_value(t.take(i - start)),
        decreases stop - i,
    {
        let b = *vstd::slice::slice_index_get(bytes, i);
        proof {
            assert(t[i - start] == bytes@[i as int]);
        }
        if b < 48 || b > 57 {
            proof {
                assert(!all_digits(t));
            }
            return None;
        }
        let d = (b - 48) as u32;
        let ghost pre = t.take(i + 1 - start);
        proof {
            assert(pre.take(pre.len() - 1) =~= t.take(i - start));
            assert(pre[pre.len() - 1] == t[i - start]);
            assert(all_digits(pre));
            assert(digits_value(pre) == value * 10 + d);
        }
        if value > (u32::MAX - d) / 10 {
            proof {
                if all_digits(t) {
                    assert(value * 10 + d > u32::MAX) by (nonlinear_arith)
                        requires
                            value > (u32::MAX - d) / 10,
                            d <= 9,
                    ;
                    lemma_digits_value_prefix(t, i + 1 - start);
                    assert(digits_value(t) > u32::MAX);
                }
            }
            return None;
        }
        proof {
            assert(value * 10 + d <= u32::MAX) by (nonlinear_arith)
                requires
                    value <= (u32::MAX - d) / 10,
                    d <= 9,
            ;
        }
        value = value * 10 + d;
        i = i + 1;
    }
    proof {
        assert(t.take(i - start) =~= t);
    }
    Some(value)
}

/// Compare two byte strings.
fn bytes_equal(a: &[u8], b: &[u8]) -> (r: bool)
    ensures
        r == (a@ == b@),
{
    if a.len() != b.len() {
        proof {
            assert(a@ != b@);
        }
        return false;
    }
    let n = a.len();
    let mut i: usize = 0;
    while i < n
        invariant
            i <= n,
            n == a@.len() == b@.len(),
            forall|j: int| 0 <= j < i ==> a@[j] == b@[j],
        decreases n - i,
    {
        if *vstd::slice::slice_index_get(a, i) != *vstd::slice::slice_index_get(b, i) {
            proof {
                assert(a@[i as int] != b@[i as int]);
            }
            return false;
        }
        i = i + 1;
    }
    proof {
        assert(a@ =~= b@);
    }
    true
}

/// True exactly when `id` is the two given bytes.
fn id_is2(id: &[u8], a: u8, b: u8) -> (r: bool)
    ensures
        r == (id@ == seq![a, b]),
{
    let r = id.len() == 2 && *vstd::slice::slice_index_get(id, 0) == a
        && *vstd::slice::slice_index_get(id, 1) == b;
    proof {
        if r {
            assert(id@ =~= seq![a, b]);
        } else {
            assert(id@ != seq![a, b]);
        }
    }
    r
}

/// True exactly when `id` is the three given bytes.
fn id_is3(id: &[u8], a: u8, b: u8, c: u8) -> (r: bool)
    ensures
        r == (id@ == seq![a, b, c]),
{
    let r = id.len() == 3 && *vstd::slice::slice_index_get(id, 0) == a
        && *vstd::slice::slice_index_get(id, 1) == b && *vstd::slice::slice_index_get(id, 2) == c;
    proof {
        if r {
            assert(id@ =~= seq![a, b, c]);
        } else {
            assert(id@ != seq![a, b, c]);
        }
    }
    r
}

/// Count a segment's data elements, stopping at `cap`.
fn data_elems_capped(segment: &Segment<'_>, cap: usize) -> (n: usize)
    ensures
        n == if segment@.elems().len() <= cap {
            segment@.elems().len() as int
        } else {
            cap as int
        },
{
    let ghost elems = segment@.elems();
    let mut it = segment.elements();
    let mut n: usize = 0;
    while n < cap
        invariant
            n <= cap,
            n <= elems.len(),
            elems == segment@.elems(),
            it.remaining().len() == elems.len() - n,
        decreases cap - n,
    {
        match it.next() {
            Some(_) => {
                n = n + 1;
            },
            None => {
                return n;
            },
        }
    }
    n
}

/// An element count as the validators report it: stuck at the machine
/// limit instead of overflowing.
pub open spec fn reported_count(n: nat) -> nat {
    if n <= usize::MAX {
        n
    } else {
        usize::MAX as nat
    }
}

/// A counter that sticks at the machine limit instead of wrapping.
pub open spec fn bump_usize(c: nat) -> nat {
    if c < usize::MAX {
        c + 1
    } else {
        c
    }
}

/// Append a finding unless the accumulator is full.
pub open spec fn push_capped(errs: Seq<ErrView>, e: ErrView) -> Seq<ErrView> {
    if errs.len() < MAX_ERRORS {
        errs.push(e)
    } else {
        errs
    }
}

/// An error-severity finding as the structural validator records it.
pub open spec fn seq_err(kind: ErrorKind, id: Seq<u8>, message: Seq<char>, pos: nat) -> ErrView {
    ErrView {
        severity: Severity::Error,
        kind,
        segment_id: pad3(id),
        element: None,
        message,
        position: Some(pos as int),
    }
}

/// An observer of parsed segments that accumulates findings instead of
/// stopping the parse.
pub trait Validator {
    /// The findings accumulated so far.
    spec fn findings(&self) -> Seq<ErrView>;

    /// Observe one segment; never stops the parse.
    fn validate(&mut self, segment: &Segment<'_>);

    /// The accumulated findings.
    fn errors(&self) -> (r: &[ValidationError])
        ensures
            r@.map_values(|e: ValidationError| e@) == self.findings(),
    ;

    /// Drop all findings and start over.
    fn clear(&mut self)
        ensures
            final(self).findings() == Seq::<ErrView>::empty(),
    ;

    /// The validator's name, for reporting.
    fn name(&self) -> &str;
}

/// Envelope position of the structural validator.
#[derive(Debug, Clone, Copy, PartialEq, Eq, Structural)]
pub enum ValidationState {
    /// Nothing open.
    Initial,
    /// Inside ISA..IEA.
    InInterchange,
    /// Inside GS..GE.
    InGroup,
    /// Inside ST..SE.
    InTransaction,
}

/// The mathematical content of the structural validator.
pub ghost struct Snip1View {
    pub state: ValidationState,
    pub count: nat,
    pub errs: Seq<ErrView>,
}

/// A fresh structural validator.
pub open spec fn snip1_init() -> Snip1View {
    Snip1View { state: ValidationState::Initial, count: 0, errs: Seq::empty() }
}

/// One observation of the structural validator: track the envelope state
/// across the six control segments, record a `SegmentSequence` finding for a
/// control segment that appears out of place and an `InvalidSyntax` finding
/// for a control segment with too few data elements, and ignore everything
/// else.
pub open spec fn snip1_step(v: Snip1View, s: SegView) -> Snip1View {
    let pos = bump_usize(v.count);
    let ne = s.elems().len();
    if s.id == seq![73u8, 83u8, 65u8] {
        let e1 = if v.state != ValidationState::Initial {
            push_capped(
                v.errs,
                seq_err(
                    ErrorKind::SegmentSequence,
                    s.id,
                    "ISA segment inside an open interchange"@,
                    pos,
                ),
            )
        } else {
            v.errs
        };
        let e2 = if ne != 16 {
            push_capped(
                e1,
                seq_err(
                    ErrorKind::InvalidSyntax,
                    s.id,
                    "ISA must have exactly 16 elements, found "@ + dec_digits(
                        reported_count(ne),
                    ),
                    pos,
                ),
            )
        } else {
            e1
        };
        Snip1View { state: ValidationState::InInterchange, count: pos, errs: e2 }
    } else if s.id == seq![71u8, 83u8] {
        let e1 = if v.state != ValidationState::InInterchange {
            push_capped(
                v.errs,
                seq_err(ErrorKind::SegmentSequence, s.id, "GS segment outside of interchange"@, pos),
            )
        } else {
            v.errs
        };
        let e2 = if ne < 8 {
            push_capped(
                e1,
                seq_err(
                    ErrorKind::InvalidSyntax,
                    s.id,
                    "GS must have at least 8 elements, found "@ + dec_digits(reported_count(ne)),
                    pos,
                ),
            )
        } else {
            e1
        };
        Snip1View { state: ValidationState::InGroup, count: pos, errs: e2 }
    } else if s.id == seq![83u8, 84u8] {
        let e1 = if v.state != ValidationState::InGroup {
            push_capped(
                v.errs,
                seq_err(
                    ErrorKind::SegmentSequence,
                    s.id,
                    "ST segment outside of functional group"@,
                    pos,
                ),
            )
        } else {
            v.errs
        };
        let e2 = if ne < 2 {
            push_capped(
                e1,
                seq_err(ErrorKind::InvalidSyntax, s.id, "ST must have at least 2 elements"@, pos),
            )
        } else {
            e1
        };
        Snip1View { state: ValidationState::InTransaction, count: pos, errs: e2 }
    } else if s.id == seq![83u8, 69u8] {
        let e1 = if v.state != ValidationState::InTransaction {
            push_capped(
                v.errs,
                seq_err(ErrorKind::SegmentSequence, s.id, "SE segment outside of transaction"@, pos),
            )
        } else {
            v.errs
        };
        Snip1View { state: ValidationState::InGroup, count: pos, errs: e1 }
    } else if s.id == seq![71u8, 69u8] {
        let e1 = if v.state != ValidationState::InGroup {
            push_capped(
                v.errs,
                seq_err(ErrorKind::SegmentSequence, s.id, "GE segment outside of group"@, pos),
            )
        } else {
            v.errs
        };
        Snip1View { state: ValidationState::InInterchange, count: pos, errs: e1 }
    } else if s.id == seq![73u8, 69u8, 65u8] {
        let e1 = if v.state != ValidationState::InInterchange {
            push_capped(
                v.errs,
                seq_err(ErrorKind::SegmentSequence, s.id, "IEA segment outside of interchange"@, pos),
            )
        } else {
            v.errs
        };
        Snip1View { state: ValidationState::Initial, count: pos, errs: e1 }
    } else {
        Snip1View { state: v.state, count: pos, errs: v.errs }
    }
}

/// The structural validator after observing `segs` in order.
pub open spec fn snip1_run(segs: Seq<SegView>) -> Snip1View
    decreases segs.len(),
{
    if segs.len() == 0 {
        snip1_init()
    } else {
        snip1_step(snip1_run(segs.drop_last()), segs.last())
    }
}

/// Structural ("SNIP level 1") validator: envelope state tracking and
/// element-count sanity for the control segments.
pub struct Snip1Validator {
    errors: Vec<ValidationError>,
    state: ValidationState,
    segment_count: usize,
}

impl View for Snip1Validator {
    type V = Snip1View;

    closed spec fn view(&self) -> Snip1View {
        Snip1View {
            state: self.state,
            count: self.segment_count as nat,
            errs: self.errors@.map_values(|e: ValidationError| e@),
        }
    }
}

impl Snip1Validator {
    /// A fresh validator, in the initial envelope state with no findings.
    pub fn new() -> (v: Self)
        ensures
            v@ == snip1_init(),
    {
        let v = Snip1Validator {
            errors: Vec::new(),
            state: ValidationState::Initial,
            segment_count: 0,
        };
        proof {
            assert(v@.errs =~= Seq::<ErrView>::empty());
        }
        v
    }

    fn add_error(
        &mut self,
        severity: Severity,
        kind: ErrorKind,
        segment: &Segment<'_>,
        element: Option<usize>,
        message: String,
    )
        ensures
            final(self).state == old(self).state,
            final(self).segment_count == old(self).segment_count,
            final(self)@.errs == push_capped(
                old(self)@.errs,
                ErrView {
                    severity,
                    kind,
                    segment_id: pad3(segment@.id),
                    element: match element {
                        Some(x) => Some(x as int),
                        None => None::<int>,
                    },
                    message: message@,
                    position: Some(old(self).segment_count as int),
                },
            ),
    {
        if self.errors.len() < MAX_ERRORS {
            let mut err = ValidationError::new(severity, kind, segment.id_bytes(), element, message);
            err.segment_position = Some(self.segment_count);
            self.errors.push(err);
            proof {
                assert(self@.errs =~= push_capped(
                    old(self)@.errs,
                    ErrView {
                        severity,
                        kind,
                        segment_id: pad3(segment@.id),
                        element: match element {
                            Some(x) => Some(x as int),
                            None => None::<int>,
                        },
                        message: message@,
                        position: Some(old(self).segment_count as int),
                    },
                ));
            }
        }
    }

    /// Consume the validator and hand back its findings.
    pub fn into_errors(self) -> (r: Vec<ValidationError>)
        ensures
            r@.map_values(|e: ValidationError| e@) == self@.errs,
    {
        self.errors
    }

    /// Observe one segment; exactly `snip1_step`.
    pub fn observe(&mut self, segment: &Segment<'_>)
        ensures
            final(self)@ == snip1_step(old(self)@, segment@),
    {
        if self.segment_count < usize::MAX {
            self.segment_count = self.segment_count + 1;
        }
        if id_is3(segment.id_bytes(), 73, 83, 65) {
            self.validate_isa(segment);
        } else if id_is2(segment.id_bytes(), 71, 83) {
            self.validate_gs(segment);
        } else if id_is2(segment.id_bytes(), 83, 84) {
            self.validate_st(segment);
        } else if id_is2(segment.id_bytes(), 83, 69) {
            if self.state != ValidationState::InTransaction {
                self.add_error(
                    Severity::Error,
                    ErrorKind::SegmentSequence,
                    segment,
                    None,
                    "SE segment outside of transaction".to_owned(),
                );
            }
            self.state = ValidationState::InGroup;
        } else if id_is2(segment.id_bytes(), 71, 69) {
            if self.state != ValidationState::InGroup {
                self.add_error(
                    Severity::Error,
                    ErrorKind::SegmentSequence,
                    segment,
                    None,
                    "GE segment outside of group".to_owned(),
                );
            }
            self.state = ValidationState::InInterchange;
        } else if id_is3(segment.id_bytes(), 73, 69, 65) {
            if self.state != ValidationState::InInterchange {
                self.add_error(
                    Severity::Error,
                    ErrorKind::SegmentSequence,
                    segment,
                    None,
                    "IEA segment outside of interchange".to_owned(),
                );
            }
            self.state = ValidationState::Initial;
        }
    }

    fn validate_isa(&mut self, segment: &Segment<'_>)
        ensures
            final(self)@.state == ValidationState::InInterchange,
            final(self)@.count == old(self)@.count,
            final(self)@.errs == ({
                let pos = old(self)@.count;
                let e1 = if old(self)@.state != ValidationState::Initial {
                    push_capped(
                        old(self)@.errs,
                        seq_err(
                            ErrorKind::SegmentSequence,
                            segment@.id,
                            "ISA segment inside an open interchange"@,
                            pos,
                        ),
                    )
                } else {
                    old(self)@.errs
                };
                if segment@.elems().len() != 16 {
                    push_capped(
                        e1,
                        seq_err(
                            ErrorKind::InvalidSyntax,
                            segment@.id,
                            "ISA must have exactly 16 elements, found "@ + dec_digits(
                                reported_count(segment@.elems().len()),
                            ),
                            pos,
                        ),
                    )
                } else {
                    e1
                }
            }),
    {
        if self.state != ValidationState::Initial {
            self.add_error(
                Severity::Error,
                ErrorKind::SegmentSequence,
                segment,
                None,
                "ISA segment inside an open interchange".to_owned(),
            );
        }
        let ne = data_elems_capped(segment, usize::MAX);
        if ne != 16 {
            let mut m = "ISA must have exactly 16 elements, found ".to_owned();
            let digits = usize_decimal(ne);
            m.append(digits.as_str());
            self.add_error(Severity::Error, ErrorKind::InvalidSyntax, segment, None, m);
        }
        self.state = ValidationState::InInterchange;
    }

    fn validate_gs(&mut self, segment: &Segment<'_>)
        ensures
            final(self)@.state == ValidationState::InGroup,
            final(self)@.count == old(self)@.count,
            final(self)@.errs == ({
                let pos = old(self)@.count;
                let e1 = if old(self)@.state != ValidationState::InInterchange {
                    push_capped(
                        old(self)@.errs,
                        seq_err(
                            ErrorKind::SegmentSequence,
                            segment@.id,
                            "GS segment outside of interchange"@,
                            pos,
                        ),
                    )
                } else {
                    old(self)@.errs
                };
                if segment@.elems().len() < 8 {
                    push_capped(
                        e1,
                        seq_err(
                            ErrorKind::InvalidSyntax,
                            segment@.id,
                            "GS must have at least 8 elements, found "@ + dec_digits(
                                reported_count(segment@.elems().len()),
                            ),
                            pos,
                        ),
                    )
                } else {
                    e1
                }
            }),
    {
        if self.state != ValidationState::InInterchange {
            self.add_error(
                Severity::Error,
                ErrorKind::SegmentSequence,
                segment,
                None,
                "GS segment outside of interchange".to_owned(),
            );
        }
        let ne = data_elems_capped(segment, usize::MAX);
        if ne < 8 {
            let mut m = "GS must have at least 8 elements, found ".to_owned();
            let digits = usize_decimal(ne);
            m.append(digits.as_str());
            self.add_error(Severity::Error, ErrorKind::InvalidSyntax, segment, None, m);
        }
        self.state = ValidationState::InGroup;
    }

    fn validate_st(&mut self, segment: &Segment<'_>)
        ensures
            final(self)@.state == ValidationState::InTransaction,
            final(self)@.count == old(self)@.count,
            final(self)@.errs == ({
                let pos = old(self)@.count;
                let e1 = if old(self)@.state != ValidationState::InGroup {
                    push_capped(
                        old(self)@.errs,
                        seq_err(
                            ErrorKind::SegmentSequence,
                            segment@.id,
                            "ST segment outside of functional group"@,
                            pos,
                        ),
                    )
                } else {
                    old(self)@.errs
                };
                if segment@.elems().len() < 2 {
                    push_capped(
                        e1,
                        seq_err(
                            ErrorKind::InvalidSyntax,
                            segment@.id,
                            "ST must have at least 2 elements"@,
                            pos,
                        ),
                    )
                } else {
                    e1
                }
            }),
    {
        if self.state != ValidationState::InGroup {
            self.add_error(
                Severity::Error,
                ErrorKind::SegmentSequence,
                segment,
                None,
                "ST segment outside of functional group".to_owned(),
            );
        }
        let ne = data_elems_capped(segment, 2);
        if ne < 2 {
            self.add_error(
                Severity::Error,
                ErrorKind::InvalidSyntax,
                segment,
                None,
                "ST must have at least 2 elements".to_owned(),
            );
        }
        self.state = ValidationState::InTransaction;
    }
}

impl Validator for Snip1Validator {
    open spec fn findings(&self) -> Seq<ErrView> {
        self@.errs
    }

    fn validate(&mut self, segment: &Segment<'_>)
        ensures
            final(self)@ == snip1_step(old(self)@, segment@),
    {
        self.observe(segment);
    }

    fn errors(&self) -> (r: &[ValidationError])
        ensures
            r@.map_values(|e: ValidationError| e@) == self.findings(),
    {
        self.errors.as_slice()
    }

    fn clear(&mut self)
        ensures
            final(self)@ == snip1_init(),
    {
        self.errors.clear();
        self.state = ValidationState::Initial;
        self.segment_count = 0;
        proof {
            assert(self@.errs =~= Seq::<ErrView>::empty());
        }
    }

    fn name(&self) -> (r: &str)
        ensures
            r@ == "SNIP Level 1 (Syntax)"@,
    {
        "SNIP Level 1 (Syntax)"
    }
}

/// A counter that sticks at its limit instead of wrapping.
pub open spec fn bump_u32(c: nat) -> nat {
    if c < u32::MAX {
        c + 1
    } else {
        c
    }
}

/// How a stored control number is cited in a message: its digits, or
/// `none` when nothing usable was stored.
pub open spec fn opt_dec(o: Option<u32>) -> Seq<char> {
    match o {
        Some(v) => dec_digits(v as nat),
        None => "none"@,
    }
}

/// An error-severity finding at a given element, as the inter-segment
/// validator records it.
pub open spec fn elem_err(
    kind: ErrorKind,
    id: Seq<u8>,
    element: int,
    message: Seq<char>,
    pos: nat,
) -> ErrView {
    ErrView {
        severity: Severity::Error,
        kind,
        segment_id: pad3(id),
        element: Some(element),
        message,
        position: Some(pos as int),
    }
}

/// The mathematical content of the inter-segment validator.
pub ghost struct Snip7View {
    pub isa_control: Option<u32>,
    pub gs_control: Option<u32>,
    pub st_control: Option<u32>,
    pub in_transaction: bool,
    pub st_count: nat,
    pub count: nat,
    pub errs: Seq<ErrView>,
}

/// A fresh inter-segment validator.
pub open spec fn snip7_init() -> Snip7View {
    Snip7View {
        isa_control: None,
        gs_control: None,
        st_control: None,
        in_transaction: false,
        st_count: 0,
        count: 0,
        errs: Seq::empty(),
    }
}

/// One observation of the inter-segment validator: capture the ISA-13,
/// GS-06 and ST-02 control numbers, compare each trailer's control number
/// against the stored one, and hold the SE-01 segment count against the
/// running transaction count, which ticks on every segment observed while a
/// transaction is open, whether or not ST-02 was readable.
pub open spec fn snip7_step(v: Snip7View, s: SegView) -> Snip7View {
    let pos = bump_usize(v.count);
    let tick = if v.in_transaction {
        bump_u32(v.st_count)
    } else {
        v.st_count
    };
    let e = s.elems();
    if s.id == seq![73u8, 83u8, 65u8] {
        Snip7View {
            isa_control: if e.len() > 12 {
                spec_parse_u32(e[12])
            } else {
                v.isa_control
            },
            st_count: tick,
            count: pos,
            ..v
        }
    } else if s.id == seq![73u8, 69u8, 65u8] {
        let errs = if e.len() > 1 {
            match spec_parse_u32(e[1]) {
                Some(c) => if Some(c) != v.isa_control {
                    push_capped(
                        v.errs,
                        elem_err(
                            ErrorKind::ControlNumberMismatch,
                            s.id,
                            1,
                            "IEA02 value "@ + dec_digits(c as nat)
                                + " does not match ISA13 value "@ + opt_dec(v.isa_control),
                            pos,
                        ),
                    )
                } else {
                    v.errs
                },
                None => v.errs,
            }
        } else {
            v.errs
        };
        Snip7View { st_count: tick, count: pos, errs, ..v }
    } else if s.id == seq![71u8, 83u8] {
        Snip7View {
            gs_control: if e.len() > 5 {
                spec_parse_u32(e[5])
            } else {
                v.gs_control
            },
            st_count: tick,
            count: pos,
            ..v
        }
    } else if s.id == seq![71u8, 69u8] {
        let errs = if e.len() > 1 {
            match spec_parse_u32(e[1]) {
                Some(c) => if Some(c) != v.gs_control {
                    push_capped(
                        v.errs,
                        elem_err(
                            ErrorKind::ControlNumberMismatch,
                            s.id,
                            1,
                            "GE02 value "@ + dec_digits(c as nat)
                                + " does not match GS06 value "@ + opt_dec(v.gs_control),
                            pos,
                        ),
                    )
                } else {
                    v.errs
                },
                None => v.errs,
            }
        } else {
            v.errs
        };
        Snip7View { st_count: tick, count: pos, errs, ..v }
    } else if s.id == seq![83u8, 84u8] {
        Snip7View {
            st_control: if e.len() > 1 {
                spec_parse_u32(e[1])
            } else {
                v.st_control
            },
            in_transaction: true,
            st_count: 1,
            count: pos,
            ..v
        }
    } else if s.id == seq![83u8, 69u8] {
        let sc = bump_u32(v.st_count);
        let e1 = if e.len() > 0 {
            match spec_parse_u32(e[0]) {
                Some(c) => if c != sc {
                    push_capped(
                        v.errs,
                        elem_err(
                            ErrorKind::CountMismatch,
                            s.id,
                            0,
                            "SE01 count "@ + dec_digits(c as nat) + " does not match actual "@
                                + dec_digits(sc),
                            pos,
                        ),
                    )
                } else {
                    v.errs
                },
                None => v.errs,
            }
        } else {
            v.errs
        };
        let e2 = if e.len() > 1 {
            match spec_parse_u32(e[1]) {
                Some(c) => if Some(c) != v.st_control {
                    push_capped(
                        e1,
                        elem_err(
                            ErrorKind::ControlNumberMismatch,
                            s.id,
                            1,
                            "SE02 value "@ + dec_digits(c as nat)
                                + " does not match ST02 value "@ + opt_dec(v.st_control),
                            pos,
                        ),
                    )
                } else {
                    e1
                },
                None => e1,
            }
        } else {
            e1
        };
        Snip7View { in_transaction: false, st_count: 0, count: pos, errs: e2, ..v }
    } else {
        Snip7View { st_count: tick, count: pos, ..v }
    }
}

/// The inter-segment validator after observing `segs` in order.
pub open spec fn snip7_run(segs: Seq<SegView>) -> Snip7View
    decreases segs.len(),
{
    if segs.len() == 0 {
        snip7_init()
    } else {
        snip7_step(snip7_run(segs.drop_last()), segs.last())
    }
}

/// Inter-segment ("SNIP level 7") validator: control-number
/// cross-referencing and transaction segment counting.
pub struct Snip7Validator {
    errors: Vec<ValidationError>,
    isa_control: Option<u32>,
    gs_control: Option<u32>,
    st_control: Option<u32>,
    in_transaction: bool,
    st_segment_count: u32,
    segment_count: usize,
}

impl View for Snip7Validator {
    type V = Snip7View;

    closed spec fn view(&self) -> Snip7View {
        Snip7View {
            isa_control: self.isa_control,
            gs_control: self.gs_control,
            st_control: self.st_control,
            in_transaction: self.in_transaction,
            st_count: self.st_segment_count as nat,
            count: self.segment_count as nat,
            errs: self.errors@.map_values(|e: ValidationError| e@),
        }
    }
}

fn mismatch_message(prefix: &str, value: u32, mid: &str, stored: &Option<u32>) -> (m: String)
    ensures
        m@ == prefix@ + dec_digits(value as nat) + mid@ + opt_dec(*stored),
{
    let mut m = prefix.to_owned();
    let digits = u32_decimal(value);
    m.append(digits.as_str());
    m.append(mid);
    match stored {
        Some(v) => {
            let stored_digits = u32_decimal(*v);
            m.append(stored_digits.as_str());
        },
        None => {
            m.append("none");
        },
    }
    m
}

fn count_message(found: u32, actual: u32) -> (m: String)
    ensures
        m@ == "SE01 count "@ + dec_digits(found as nat) + " does not match actual "@ + dec_digits(
            actual as nat,
        ),
{
    let mut m = "SE01 count ".to_owned();
    let digits = u32_decimal(found);
    m.append(digits.as_str());
    m.append(" does not match actual ");
    let actual_digits = u32_decimal(actual);
    m.append(actual_digits.as_str());
    m
}

impl Snip7Validator {
    /// A fresh validator with no stored controls and no findings.
    pub fn new() -> (v: Self)
        ensures
            v@ == snip7_init(),
    {
        let v = Snip7Validator {
            errors: Vec::new(),
            isa_control: None,
            gs_control: None,
            st_control: None,
            in_transaction: false,
            st_segment_count: 0,
            segment_count: 0,
        };
        proof {
            assert(v@.errs =~= Seq::<ErrView>::empty());
        }
        v
    }

    fn add_error(
        &mut self,
        severity: Severity,
        kind: ErrorKind,
        segment: &Segment<'_>,
        element: Option<usize>,
        message: String,
    )
        ensures
            final(self).isa_control == old(self).isa_control,
            final(self).gs_control == old(self).gs_control,
            final(self).st_control == old(self).st_control,
            final(self).in_transaction == old(self).in_transaction,
            final(self).st_segment_count == old(self).st_segment_count,
            final(self).segment_count == old(self).segment_count,
            final(self)@.errs == push_capped(
                old(self)@.errs,
                ErrView {
                    severity,
                    kind,
                    segment_id: pad3(segment@.id),
                    element: match element {
                        Some(x) => Some(x as int),
                        None => None::<int>,
                    },
                    message: message@,
                    position: Some(old(self).segment_count as int),
                },
            ),
    {
        if self.errors.len() < MAX_ERRORS {
            let mut err = ValidationError::new(severity, kind, segment.id_bytes(), element, message);
            err.segment_position = Some(self.segment_count);
            self.errors.push(err);
            proof {
                assert(self@.errs =~= push_capped(
                    old(self)@.errs,
                    ErrView {
                        severity,
                        kind,
                        segment_id: pad3(segment@.id),
                        element: match element {
                            Some(x) => Some(x as int),
                            None => None::<int>,
                        },
                        message: message@,
                        position: Some(old(self).segment_count as int),
                    },
                ));
            }
        }
    }

    /// Read a control number under the rules of [`spec_parse_u32`].
    fn parse_u32(&self, bytes: &[u8]) -> (r: Option<u32>)
        ensures
            r == spec_parse_u32(bytes@),
    {
        parse_control_number(bytes)
    }

    fn same_control(stored: &Option<u32>, c: u32) -> (r: bool)
        ensures
            r == (Some(c) == *stored),
    {
        match stored {
            Some(x) => *x == c,
            None => false,
        }
    }

    /// Consume the validator and hand back its findings.
    pub fn into_errors(self) -> (r: Vec<ValidationError>)
        ensures
            r@.map_values(|e: ValidationError| e@) == self@.errs,
    {
        self.errors
    }

    /// Observe one segment; exactly `snip7_step`.
    pub fn observe(&mut self, segment: &Segment<'_>)
        ensures
            final(self)@ == snip7_step(old(self)@, segment@),
    {
        if self.segment_count < usize::MAX {
            self.segment_count = self.segment_count + 1;
        }
        if id_is3(segment.id_bytes(), 73, 83, 65) {
            self.tick();
            if let Some(e) = segment.element(13) {
                self.isa_control = self.parse_u32(e.as_bytes());
            }
        } else if id_is3(segment.id_bytes(), 73, 69, 65) {
            self.tick();
            if let Some(e) = segment.element(2) {
                if let Some(c) = self.parse_u32(e.as_bytes()) {
                    if !Self::same_control(&self.isa_control, c) {
                        let m = mismatch_message(
                            "IEA02 value ",
                            c,
                            " does not match ISA13 value ",
                            &self.isa_control,
                        );
                        self.add_error(
                            Severity::Error,
                            ErrorKind::ControlNumberMismatch,
                            segment,
                            Some(1),
                            m,
                        );
                    }
                }
            }
        } else if id_is2(segment.id_bytes(), 71, 83) {
            self.tick();
            if let Some(e) = segment.element(6) {
                self.gs_control = self.parse_u32(e.as_bytes());
            }
        } else if id_is2(segment.id_bytes(), 71, 69) {
            self.tick();
            if let Some(e) = segment.element(2) {
                if let Some(c) = self.parse_u32(e.as_bytes()) {
                    if !Self::same_control(&self.gs_control, c) {
                        let m = mismatch_message(
                            "GE02 value ",
                            c,
                            " does not match GS06 value ",
                            &self.gs_control,
                        );
                        self.add_error(
                            Severity::Error,
                            ErrorKind::ControlNumberMismatch,
                            segment,
                            Some(1),
                            m,
                        );
                    }
                }
            }
        } else if id_is2(segment.id_bytes(), 83, 84) {
            if let Some(e) = segment.element(2) {
                self.st_control = self.parse_u32(e.as_bytes());
            }
            self.in_transaction = true;
            self.st_segment_count = 1;
        } else if id_is2(segment.id_bytes(), 83, 69) {
            if self.st_segment_count < u32::MAX {
                self.st_segment_count = self.st_segment_count + 1;
            }
            if let Some(e) = segment.element(1) {
                if let Some(c) = self.parse_u32(e.as_bytes()) {
                    if c != self.st_segment_count {
                        let m = count_message(c, self.st_segment_count);
                        self.add_error(
                            Severity::Error,
                            ErrorKind::CountMismatch,
                            segment,
                            Some(0),
                            m,
                        );
                    }
                }
            }
            if let Some(e) = segment.element(2) {
                if let Some(c) = self.parse_u32(e.as_bytes()) {
                    if !Self::same_control(&self.st_control, c) {
                        let m = mismatch_message(
                            "SE02 value ",
                            c,
                            " does not match ST02 value ",
                            &self.st_control,
                        );
                        self.add_error(
                            Severity::Error,
                            ErrorKind::ControlNumberMismatch,
                            segment,
                            Some(1),
                            m,
                        );
                    }
                }
            }
            self.in_transaction = false;
            self.st_segment_count = 0;
        } else {
            self.tick();
        }
    }

    /// While a transaction is open, count one more observed segment.
    fn tick(&mut self)
        ensures
            final(self).errors == old(self).errors,
            final(self).isa_control == old(self).isa_control,
            final(self).gs_control == old(self).gs_control,
            final(self).st_control == old(self).st_control,
            final(self).in_transaction == old(self).in_transaction,
            final(self).segment_count == old(self).segment_count,
            final(self).st_segment_count as nat == if old(self).in_transaction {
                bump_u32(old(self).st_segment_count as nat)
            } else {
                old(self).st_segment_count as nat
            },
    {
        if self.in_transaction {
            if self.st_segment_count < u32::MAX {
                self.st_segment_count = self.st_segment_count + 1;
            }
        }
    }
}

impl Validator for Snip7Validator {
    open spec fn findings(&self) -> Seq<ErrView> {
        self@.errs
    }

    fn validate(&mut self, segment: &Segment<'_>)
        ensures
            final(self)@ == snip7_step(old(self)@, segment@),
    {
        self.observe(segment);
    }

    fn errors(&self) -> (r: &[ValidationError])
        ensures
            r@.map_values(|e: ValidationError| e@) == self.findings(),
    {
        self.errors.as_slice()
    }

    fn clear(&mut self)
        ensures
            final(self)@ == snip7_init(),
    {
        self.errors.clear();
        self.isa_control = None;
        self.gs_control = None;
        self.st_control = None;
        self.in_transaction = false;
        self.st_segment_count = 0;
        self.segment_count = 0;
        proof {
            assert(self@.errs =~= Seq::<ErrView>::empty());
        }
    }

    fn name(&self) -> (r: &str)
        ensures
            r@ == "SNIP Level 7 (Inter-segment)"@,
    {
        "SNIP Level 7 (Inter-segment)"
    }
}

/// One member of a validation suite.
pub enum SuiteValidator {
    /// The structural validator.
    Snip1(Snip1Validator),
    /// The inter-segment validator.
    Snip7(Snip7Validator),
}

/// The findings a member has accumulated.
pub open spec fn member_findings(m: SuiteValidator) -> Seq<ErrView> {
    match m {
        SuiteValidator::Snip1(v) => v@.errs,
        SuiteValidator::Snip7(v) => v@.errs,
    }
}

/// The member's whole state is what observing `segs` from a fresh start
/// leaves behind.
pub open spec fn member_tracks(m: SuiteValidator, segs: Seq<SegView>) -> bool {
    match m {
        SuiteValidator::Snip1(v) => v@ == snip1_run(segs),
        SuiteValidator::Snip7(v) => v@ == snip7_run(segs),
    }
}

/// All members' findings, in member order.
pub open spec fn suite_findings(ms: Seq<SuiteValidator>) -> Seq<ErrView>
    decreases ms.len(),
{
    if ms.len() == 0 {
        Seq::empty()
    } else {
        member_findings(ms[0]) + suite_findings(ms.skip(1))
    }
}

proof fn lemma_suite_findings_push(ms: Seq<SuiteValidator>, x: SuiteValidator)
    ensures
        suite_findings(ms.push(x)) == suite_findings(ms) + member_findings(x),
    decreases ms.len(),
{
    let p = ms.push(x);
    if ms.len() == 0 {
        assert(p[0] == x);
        assert(p.skip(1) =~= Seq::<SuiteValidator>::empty());
        assert(suite_findings(p.skip(1)) == Seq::<ErrView>::empty());
        assert(suite_findings(p) == member_findings(x) + Seq::<ErrView>::empty());
        assert(member_findings(x) + Seq::<ErrView>::empty() =~= member_findings(x));
        assert(suite_findings(ms) == Seq::<ErrView>::empty());
        assert(Seq::<ErrView>::empty() + member_findings(x) =~= member_findings(x));
    } else {
        assert(p[0] == ms[0]);
        assert(p.skip(1) =~= ms.skip(1).push(x));
        lemma_suite_findings_push(ms.skip(1), x);
        assert(suite_findings(p) == member_findings(ms[0]) + (suite_findings(ms.skip(1))
            + member_findings(x)));
        assert(member_findings(ms[0]) + (suite_findings(ms.skip(1)) + member_findings(x)) =~= (
        member_findings(ms[0]) + suite_findings(ms.skip(1))) + member_findings(x));
    }
}

proof fn lemma_suite_findings_take_snoc(ms: Seq<SuiteValidator>, i: int)
    requires
        0 <= i < ms.len(),
    ensures
        suite_findings(ms.take(i + 1)) == suite_findings(ms.take(i)) + member_findings(ms[i]),
{
    assert(ms.take(i + 1) =~= ms.take(i).push(ms[i]));
    lemma_suite_findings_push(ms.take(i), ms[i]);
}

/// An ordered suite of validators; it is itself a segment handler that
/// forwards every segment to every member and never stops the parse.
pub struct ValidationSuite {
    validators: Vec<SuiteValidator>,
    log: Ghost<Seq<SegView>>,
    joined: Ghost<Seq<int>>,
}

impl ValidationSuite {
    /// The members, in order.
    pub closed spec fn members(&self) -> Seq<SuiteValidator> {
        self.validators@
    }

    /// Every member's state is exactly what observing the suffix of the log
    /// it has seen leaves behind.
    /// Member `i` joined at a valid point and tracks the log suffix it has
    /// seen.
    pub closed spec fn member_ok(&self, i: int) -> bool {
        &&& 0 <= self.joined@[i] <= self.log@.len()
        &&& member_tracks(self.validators@[i], self.log@.skip(self.joined@[i]))
    }

    pub closed spec fn tracking(&self) -> bool {
        &&& self.joined@.len() == self.validators@.len()
        &&& forall|i: int| 0 <= i < self.validators@.len() ==> #[trigger] self.member_ok(i)
    }

    /// All findings of all members, in member order.
    pub open spec fn findings(&self) -> Seq<ErrView> {
        suite_findings(self.members())
    }

    /// The point in the suite's log at which each member joined.
    pub closed spec fn joins(&self) -> Seq<int> {
        self.joined@
    }

    /// An empty suite.
    pub fn new() -> (r: Self)
        ensures
            r.wf(),
            r.log() == Seq::<SegView>::empty(),
            r.members() == Seq::<SuiteValidator>::empty(),
            r.findings() == Seq::<ErrView>::empty(),
    {
        let r = ValidationSuite { validators: Vec::new(), log: Ghost(Seq::empty()), joined: Ghost(
            Seq::empty(),
        ) };
        proof {
            assert(r.findings() =~= Seq::<ErrView>::empty());
        }
        r
    }

    /// A suite holding the structural and the inter-segment validator, in
    /// that order.
    pub fn all_snip_levels() -> (r: Self)
        ensures
            r.wf(),
            r.log() == Seq::<SegView>::empty(),
            r.members().len() == 2,
            r.members()[0] is Snip1,
            r.members()[1] is Snip7,
            r.joins() == seq![0int, 0int],
            r.findings() == Seq::<ErrView>::empty(),
    {
        let mut suite = Self::new();
        suite.add(SuiteValidator::Snip1(Snip1Validator::new()));
        suite.add(SuiteValidator::Snip7(Snip7Validator::new()));
        proof {
            let ms = suite.members();
            assert(member_findings(ms[0]) == Seq::<ErrView>::empty());
            assert(member_findings(ms[1]) == Seq::<ErrView>::empty());
            lemma_suite_findings_clean(ms);
        }
        suite
    }

    /// Append a validator; it must be fresh (or freshly cleared), and it
    /// observes only the segments that arrive after it was added.
    pub fn add(&mut self, validator: SuiteValidator)
        requires
            old(self).wf(),
            member_tracks(validator, Seq::<SegView>::empty()),
        ensures
            final(self).wf(),
            final(self).log() == old(self).log(),
            final(self).members() == old(self).members().push(validator),
            final(self).joins() == old(self).joins().push(old(self).log().len() as int),
    {
        self.validators.push(validator);
        proof {
            self.joined@ = self.joined@.push(self.log@.len() as int);
            assert(old(self).tracking());
            assert forall|i: int| 0 <= i < self.validators@.len() implies #[trigger] self.member_ok(
                i,
            ) by {
                if i < old(self).validators@.len() {
                    assert(old(self).member_ok(i));
                    assert(self.validators@[i] == old(self).validators@[i]);
                    assert(self.joined@[i] == old(self).joined@[i]);
                } else {
                    assert(self.validators@[i] == validator);
                    assert(self.joined@[i] == self.log@.len() as int);
                    assert(self.log@.skip(self.joined@[i]) =~= Seq::<SegView>::empty());
                }
            }
            assert(self.tracking());
        }
    }

    /// References to all accumulated findings, in member order.
    pub fn errors(&self) -> (r: Vec<&ValidationError>)
        ensures
            r@.map_values(|e: &ValidationError| e@) == self.findings(),
    {
        let ghost ms = self.members();
        let mut out: Vec<&ValidationError> = Vec::new();
        let mut i: usize = 0;
        while i < self.validators.len()
            invariant
                i <= self.validators@.len(),
                ms == self.validators@,
                out@.map_values(|e: &ValidationError| e@) == suite_findings(ms.take(i as int)),
            decreases self.validators@.len() - i,
        {
            let m = &self.validators[i];
            let errs: &[ValidationError] = match m {
                SuiteValidator::Snip1(v) => v.errors(),
                SuiteValidator::Snip7(v) => v.errors(),
            };
            let ghost mf = member_findings(ms[i as int]);
            proof {
                assert(errs@.map_values(|e: ValidationError| e@) == mf);
            }
            let mut j: usize = 0;
            while j < errs.len()
                invariant
                    j <= errs@.len(),
                    ms == self.validators@,
                    i < ms.len(),
                    errs@.map_values(|e: ValidationError| e@) == mf,
                    mf == member_findings(ms[i as int]),
                    out@.map_values(|e: &ValidationError| e@) == suite_findings(ms.take(i as int))
                        + mf.take(j as int),
                decreases errs@.len() - j,
            {
                let ghost prev_out = out@;
                let r = vstd::slice::slice_index_get(errs, j);
                out.push(r);
                proof {
                    assert(mf[j as int] == errs@[j as int]@);
                    assert(r@ == mf[j as int]);
                    assert(out@ == prev_out.push(r));
                    assert(out@.map_values(|e: &ValidationError| e@) =~= prev_out.map_values(
                        |e: &ValidationError| e@,
                    ).push(r@));
                    assert(mf.take(j + 1) =~= mf.take(j as int).push(mf[j as int]));
                    assert((suite_findings(ms.take(i as int)) + mf.take(j as int)).push(
                        mf[j as int],
                    ) =~= suite_findings(ms.take(i as int)) + mf.take(j + 1));
                    assert(out@.map_values(|e: &ValidationError| e@) =~= suite_findings(
                        ms.take(i as int),
                    ) + mf.take(j + 1));
                }
                j = j + 1;
            }
            proof {
                assert(mf.take(j as int) =~= mf);
                lemma_suite_findings_take_snoc(ms, i as int);
            }
            i = i + 1;
        }
        proof {
            assert(ms.take(i as int) =~= ms);
        }
        out
    }

    /// How many findings all members hold together.
    pub fn error_count(&self) -> (n: usize)
        ensures
            n == self.findings().len(),
    {
        let refs = self.errors();
        refs.len()
    }

    /// Clear every member in place and forget the observed segments;
    /// members keep their kinds and their order.
    pub fn clear(&mut self)
        ensures
            final(self).wf(),
            final(self).log() == Seq::<SegView>::empty(),
            final(self).members().len() == old(self).members().len(),
            forall|k: int|
                0 <= k < old(self).members().len() ==> cleared_member(
                    #[trigger] final(self).members()[k],
                    old(self).members()[k],
                ),
            final(self).findings() == Seq::<ErrView>::empty(),
    {
        let n = self.validators.len();
        let mut i: usize = 0;
        while i < n
            invariant
                i <= n,
                n == self.validators@.len(),
                self.validators@.len() == old(self).validators@.len(),
                forall|k: int|
                    i <= k < n ==> #[trigger] self.validators@[k] == old(self).validators@[k],
                forall|k: int|
                    0 <= k < i ==> cleared_member(
                        #[trigger] self.validators@[k],
                        old(self).validators@[k],
                    ),
            decreases n - i,
        {
            match &mut self.validators[i] {
                SuiteValidator::Snip1(v) => {
                    v.clear();
                },
                SuiteValidator::Snip7(v) => {
                    v.clear();
                },
            }
            i = i + 1;
        }
        proof {
            self.log@ = Seq::empty();
            self.joined@ = Seq::new(self.validators@.len(), |k: int| 0int);
        }
        proof {
            assert forall|k: int| 0 <= k < self.validators@.len() implies member_findings(
                #[trigger] self.validators@[k],
            ) == Seq::<ErrView>::empty() by {
                assert(cleared_member(self.validators@[k], old(self).validators@[k]));
            }
            lemma_suite_findings_clean(self.validators@);
        }
    }

    /// Consume the suite and hand back all findings, in member order.
    pub fn finish(self) -> (r: Vec<ValidationError>)
        ensures
            r@.map_values(|e: ValidationError| e@) == self.findings(),
    {
        let ghost ms = self.members();
        let mut validators = self.validators;
        let mut out: Vec<ValidationError> = Vec::new();
        let ghost total = ms.len() as int;
        while validators.len() > 0
            invariant
                validators@ == ms.skip(total - validators@.len()),
                0 <= total - validators@.len() <= ms.len(),
                total == ms.len(),
                out@.map_values(|e: ValidationError| e@) == suite_findings(
                    ms.take(total - validators@.len()),
                ),
            decreases validators@.len(),
        {
            let ghost k = total - validators@.len();
            let m = validators.remove(0);
            proof {
                assert(m == ms[k]);
                assert(validators@ =~= ms.skip(k + 1));
            }
            let mut errs: Vec<ValidationError> = match m {
                SuiteValidator::Snip1(v) => v.into_errors(),
                SuiteValidator::Snip7(v) => v.into_errors(),
            };
            proof {
                assert(errs@.map_values(|e: ValidationError| e@) == member_findings(ms[k]));
            }
            out.append(&mut errs);
            proof {
                lemma_suite_findings_take_snoc(ms, k);
                assert(out@.map_values(|e: ValidationError| e@) =~= suite_findings(
                    ms.take(k + 1),
                ));
            }
        }
        proof {
            assert(ms.take(total - validators@.len()) =~= ms);
        }
        out
    }
}

proof fn lemma_suite_findings_clean(ms: Seq<SuiteValidator>)
    requires
        forall|k: int| 0 <= k < ms.len() ==> member_findings(#[trigger] ms[k]) == Seq::<
            ErrView,
        >::empty(),
    ensures
        suite_findings(ms) == Seq::<ErrView>::empty(),
    decreases ms.len(),
{
    if ms.len() > 0 {
        assert(member_findings(ms[0]) == Seq::<ErrView>::empty());
        assert(forall|k: int|
            0 <= k < ms.skip(1).len() ==> ms.skip(1)[k] == ms[k + 1]);
        lemma_suite_findings_clean(ms.skip(1));
        assert(suite_findings(ms) =~= Seq::<ErrView>::empty());
    }
}

impl SegmentHandler for ValidationSuite {
    closed spec fn log(&self) -> Seq<SegView> {
        self.log@
    }

    open spec fn never_halts(&self) -> bool {
        true
    }

    open spec fn may_halt(&self, segment: SegView, halt: Halt) -> bool {
        false
    }

    /// Every member's state is exactly what observing the suffix of the log
    /// it has seen leaves behind.
    open spec fn wf(&self) -> bool {
        self.tracking()
    }

    fn handle(&mut self, segment: &Segment<'_>) -> (r: Result<(), Halt>)
        ensures
            r is Ok ==> final(self).log() == old(self).log().push(segment@),
            r is Err ==> final(self).log() == old(self).log(),
            old(self).never_halts() ==> r is Ok && final(self).never_halts(),
            old(self).wf() ==> final(self).wf(),
            final(self).members().len() == old(self).members().len(),
            final(self).joins() == old(self).joins(),
    {
        let ghost pre = *self;
        let n = self.validators.len();
        let mut i: usize = 0;
        while i < n
            invariant
                i <= n,
                n == self.validators@.len(),
                self.validators@.len() == pre.validators@.len(),
                self.log@ == pre.log@,
                self.joined@ == pre.joined@,
                forall|k: int|
                    i <= k < n ==> #[trigger] self.validators@[k] == pre.validators@[k],
                forall|k: int|
                    0 <= k < i ==> stepped(#[trigger] self.validators@[k], pre.validators@[k],
                    segment@),
            decreases n - i,
        {
            match &mut self.validators[i] {
                SuiteValidator::Snip1(v) => {
                    v.observe(segment);
                },
                SuiteValidator::Snip7(v) => {
                    v.observe(segment);
                },
            }
            i = i + 1;
        }
        proof {
            self.log@ = self.log@.push(segment@);
        }
        proof {
            if pre.wf() {
                assert forall|k: int| 0 <= k < self.validators@.len() implies #[trigger] self.member_ok(
                    k,
                ) by {
                    assert(pre.member_ok(k));
                    let j = self.joined@[k];
                    let seen = pre.log@.skip(j);
                    assert(member_tracks(pre.validators@[k], seen));
                    assert(self.log@.skip(j) =~= seen.push(segment@));
                    assert(seen.push(segment@).drop_last() =~= seen);
                    match self.validators@[k] {
                        SuiteValidator::Snip1(v) => {
                            assert(snip1_run(seen.push(segment@)) == snip1_step(
                                snip1_run(seen),
                                segment@,
                            ));
                        },
                        SuiteValidator::Snip7(v) => {
                            assert(snip7_run(seen.push(segment@)) == snip7_step(
                                snip7_run(seen),
                                segment@,
                            ));
                        },
                    }
                }
                assert(self.tracking());
            }
        }
        Ok(())
    }
}

/// One step never loses or changes the findings already made.
proof fn lemma_snip1_step_keeps(v: Snip1View, s: SegView)
    ensures
        v.errs.len() <= snip1_step(v, s).errs.len(),
        forall|j: int| 0 <= j < v.errs.len() ==> snip1_step(v, s).errs[j] == v.errs[j],
{
}

/// A finding once made stays, whatever segments follow.
proof fn lemma_snip1_run_keeps(segs: Seq<SegView>, k: int)
    requires
        0 <= k <= segs.len(),
    ensures
        snip1_run(segs.take(k)).errs.len() <= snip1_run(segs).errs.len(),
        forall|j: int|
            0 <= j < snip1_run(segs.take(k)).errs.len() ==> snip1_run(segs).errs[j] == snip1_run(
                segs.take(k),
            ).errs[j],
    decreases segs.len() - k,
{
    if k == segs.len() {
        assert(segs.take(k) =~= segs);
    } else {
        lemma_snip1_run_keeps(segs.drop_last(), k);
        assert(segs.drop_last().take(k) =~= segs.take(k));
        lemma_snip1_step_keeps(snip1_run(segs.drop_last()), segs.last());
    }
}

/// The identifiers and element counts of a well-formed minimal envelope
/// ISA, GS, ST, SE, GE, IEA.
pub open spec fn minimal_envelope(segs: Seq<SegView>) -> bool {
    &&& segs.len() == 6
    &&& segs[0].id == seq![73u8, 83u8, 65u8] && segs[0].elems().len() == 16
    &&& segs[1].id == seq![71u8, 83u8] && segs[1].elems().len() >= 8
    &&& segs[2].id == seq![83u8, 84u8] && segs[2].elems().len() >= 2
    &&& segs[3].id == seq![83u8, 69u8]
    &&& segs[4].id == seq![71u8, 69u8]
    &&& segs[5].id == seq![73u8, 69u8, 65u8]
}

proof fn lemma_snip1_unfold(segs: Seq<SegView>, k: int)
    requires
        1 <= k <= segs.len(),
    ensures
        snip1_run(segs.take(k)) == snip1_step(snip1_run(segs.take(k - 1)), segs[k - 1]),
{
    assert(segs.take(k).drop_last() =~= segs.take(k - 1));
    assert(segs.take(k).last() == segs[k - 1]);
}

/// Structural-validation law: a minimal envelope in order, with sane
/// element counts, draws no finding at all.
pub proof fn lemma_minimal_envelope_clean(segs: Seq<SegView>)
    requires
        minimal_envelope(segs),
    ensures
        snip1_run(segs).errs == Seq::<ErrView>::empty(),
{
    assert(segs.take(0) =~= Seq::<SegView>::empty());
    lemma_snip1_unfold(segs, 1);
    lemma_snip1_unfold(segs, 2);
    lemma_snip1_unfold(segs, 3);
    lemma_snip1_unfold(segs, 4);
    lemma_snip1_unfold(segs, 5);
    lemma_snip1_unfold(segs, 6);
    assert(segs.take(6) =~= segs);
    assert(snip1_run(segs.take(1)).state == ValidationState::InInterchange);
    assert(snip1_run(segs.take(2)).state == ValidationState::InGroup);
    assert(snip1_run(segs.take(3)).state == ValidationState::InTransaction);
    assert(snip1_run(segs.take(4)).state == ValidationState::InGroup);
    assert(snip1_run(segs.take(5)).state == ValidationState::InInterchange);
    assert(snip1_run(segs).errs =~= Seq::<ErrView>::empty());
}

/// Structural-validation law: swapping two adjacent control segments of a
/// minimal envelope draws at least one segment-sequence finding.
pub proof fn lemma_adjacent_swap_flagged(base: Seq<SegView>, segs: Seq<SegView>, i: int)
    requires
        minimal_envelope(base),
        0 <= i < 5,
        segs == base.update(i, base[i + 1]).update(i + 1, base[i]),
    ensures
        exists|j: int|
            0 <= j < snip1_run(segs).errs.len() && (#[trigger] snip1_run(segs).errs[j]).kind
                == ErrorKind::SegmentSequence,
{
    assert(segs.len() == 6);
    assert(segs.take(0) =~= Seq::<SegView>::empty());
    lemma_snip1_unfold(segs, 1);
    lemma_snip1_unfold(segs, 2);
    lemma_snip1_unfold(segs, 3);
    lemma_snip1_unfold(segs, 4);
    lemma_snip1_unfold(segs, 5);
    let culprit = base[i + 1];
    if i == 0 {
        assert(segs[0] == culprit);
        assert(snip1_run(segs.take(1)).errs[0].kind == ErrorKind::SegmentSequence);
        lemma_snip1_run_keeps(segs, 1);
    } else if i == 1 {
        assert(segs[0] == base[0] && segs[1] == culprit);
        assert(snip1_run(segs.take(1)).state == ValidationState::InInterchange);
        assert(snip1_run(segs.take(1)).errs =~= Seq::<ErrView>::empty());
        assert(snip1_run(segs.take(2)).errs[0].kind == ErrorKind::SegmentSequence);
        lemma_snip1_run_keeps(segs, 2);
    } else if i == 2 {
        assert(segs[0] == base[0] && segs[1] == base[1] && segs[2] == culprit);
        assert(snip1_run(segs.take(2)).state == ValidationState::InGroup);
        assert(snip1_run(segs.take(2)).errs =~= Seq::<ErrView>::empty());
        assert(snip1_run(segs.take(3)).errs[0].kind == ErrorKind::SegmentSequence);
        lemma_snip1_run_keeps(segs, 3);
    } else if i == 3 {
        assert(segs[0] == base[0] && segs[1] == base[1] && segs[2] == base[2] && segs[3]
            == culprit);
        assert(snip1_run(segs.take(3)).state == ValidationState::InTransaction);
        assert(snip1_run(segs.take(3)).errs =~= Seq::<ErrView>::empty());
        assert(snip1_run(segs.take(4)).errs[0].kind == ErrorKind::SegmentSequence);
        lemma_snip1_run_keeps(segs, 4);
    } else {
        assert(segs[0] == base[0] && segs[1] == base[1] && segs[2] == base[2] && segs[3]
            == base[3] && segs[4] == culprit);
        assert(snip1_run(segs.take(4)).state == ValidationState::InGroup);
        assert(snip1_run(segs.take(4)).errs =~= Seq::<ErrView>::empty());
        assert(snip1_run(segs.take(5)).errs[0].kind == ErrorKind::SegmentSequence);
        lemma_snip1_run_keeps(segs, 5);
    }
    assert(snip1_run(segs).errs.len() > 0);
    assert(snip1_run(segs).errs[0].kind == ErrorKind::SegmentSequence);
}

/// The inter-segment validator after observing `segs` starting from state
/// `v`.
pub open spec fn snip7_from(v: Snip7View, segs: Seq<SegView>) -> Snip7View
    decreases segs.len(),
{
    if segs.len() == 0 {
        v
    } else {
        snip7_step(snip7_from(v, segs.drop_last()), segs.last())
    }
}

proof fn lemma_snip7_from_concat(v: Snip7View, a: Seq<SegView>, b: Seq<SegView>)
    ensures
        snip7_from(v, a + b) == snip7_from(snip7_from(v, a), b),
    decreases b.len(),
{
    if b.len() == 0 {
        assert(a + b =~= a);
    } else {
        lemma_snip7_from_concat(v, a, b.drop_last());
        assert((a + b).drop_last() =~= a + b.drop_last());
        assert((a + b).last() == b.last());
    }
}

proof fn lemma_snip7_run_is_from(segs: Seq<SegView>)
    ensures
        snip7_run(segs) == snip7_from(snip7_init(), segs),
    decreases segs.len(),
{
    if segs.len() > 0 {
        lemma_snip7_run_is_from(segs.drop_last());
    }
}

/// One of the six envelope control identifiers.
pub open spec fn is_control_id(id: Seq<u8>) -> bool {
    ||| id == seq![73u8, 83u8, 65u8]
    ||| id == seq![73u8, 69u8, 65u8]
    ||| id == seq![71u8, 83u8]
    ||| id == seq![71u8, 69u8]
    ||| id == seq![83u8, 84u8]
    ||| id == seq![83u8, 69u8]
}

/// Inside an open transaction, ordinary segments only tick the running
/// count and draw no finding.
proof fn lemma_snip7_body(v: Snip7View, body: Seq<SegView>)
    requires
        v.in_transaction,
        forall|i: int| 0 <= i < body.len() ==> !is_control_id((#[trigger] body[i]).id),
        v.st_count + body.len() <= u32::MAX,
    ensures
        ({
            let vn = snip7_from(v, body);
            &&& vn.isa_control == v.isa_control
            &&& vn.gs_control == v.gs_control
            &&& vn.st_control == v.st_control
            &&& vn.in_transaction
            &&& vn.st_count == v.st_count + body.len()
            &&& vn.errs == v.errs
        }),
    decreases body.len(),
{
    if body.len() > 0 {
        lemma_snip7_body(v, body.drop_last());
    }
}

/// Count law: over one transaction with a readable control number, the
/// inter-segment validator draws exactly one count-mismatch finding when
/// SE-01 disagrees with the true segment count, and none when it agrees;
/// segments outside this transaction are untouched either way.
pub proof fn lemma_transaction_count(
    v0: Snip7View,
    st: SegView,
    body: Seq<SegView>,
    se: SegView,
    tc: u32,
    c: u32,
)
    requires
        st.id == seq![83u8, 84u8],
        se.id == seq![83u8, 69u8],
        forall|i: int| 0 <= i < body.len() ==> !is_control_id((#[trigger] body[i]).id),
        st.elems().len() >= 2,
        spec_parse_u32(st.elems()[1]) == Some(tc),
        se.elems().len() >= 2,
        spec_parse_u32(se.elems()[0]) == Some(c),
        spec_parse_u32(se.elems()[1]) == Some(tc),
        body.len() + 2 <= u32::MAX,
        v0.errs.len() < MAX_ERRORS,
    ensures
        ({
            let vn = snip7_from(v0, seq![st] + body + seq![se]);
            &&& (c == body.len() + 2 ==> vn.errs == v0.errs)
            &&& (c != body.len() + 2 ==> vn.errs.len() == v0.errs.len() + 1 && vn.errs.last().kind
                == ErrorKind::CountMismatch && vn.errs.last().element == Some(0int)
                && vn.errs.last().segment_id == pad3(se.id))
            &&& vn.st_count == 0
        }),
{
    let v1 = snip7_step(v0, st);
    assert(snip7_from(v0, Seq::<SegView>::empty()) == v0);
    assert(seq![st].drop_last() =~= Seq::<SegView>::empty());
    assert(seq![st].last() == st);
    assert(snip7_from(v0, seq![st]) == v1);
    lemma_snip7_from_concat(v0, seq![st], body);
    lemma_snip7_body(v1, body);
    let v2 = snip7_from(v1, body);
    lemma_snip7_from_concat(v0, seq![st] + body, seq![se]);
    assert((seq![st] + body) + seq![se] =~= seq![st] + body + seq![se]);
    assert(snip7_from(v2, Seq::<SegView>::empty()) == v2);
    assert(seq![se].drop_last() =~= Seq::<SegView>::empty());
    assert(seq![se].last() == se);
    assert(snip7_from(v2, seq![se]) == snip7_step(v2, se));
    let vn = snip7_step(v2, se);
    assert(v2.st_count == 1 + body.len());
    assert(bump_u32(v2.st_count) == body.len() + 2);
}

/// Control-number law: over a minimal envelope whose group and transaction
/// trailers match their headers and whose transaction count is right, the
/// inter-segment validator draws exactly one finding when IEA-02 disagrees
/// with ISA-13, and that finding is a control-number mismatch at the
/// interchange trailer.
#[verifier::rlimit(100)]
pub proof fn lemma_interchange_control_mismatch(
    segs: Seq<SegView>,
    ic: u32,
    tc_iea: u32,
    g: u32,
    tc: u32,
)
    requires
        minimal_envelope(segs),
        segs[0].elems().len() >= 13,
        spec_parse_u32(segs[0].elems()[12]) == Some(ic),
        spec_parse_u32(segs[1].elems()[5]) == Some(g),
        spec_parse_u32(segs[2].elems()[1]) == Some(tc),
        spec_parse_u32(segs[3].elems()[0]) == Some(2u32),
        spec_parse_u32(segs[3].elems()[1]) == Some(tc),
        segs[3].elems().len() >= 2,
        segs[4].elems().len() >= 2,
        spec_parse_u32(segs[4].elems()[1]) == Some(g),
        segs[5].elems().len() >= 2,
        spec_parse_u32(segs[5].elems()[1]) == Some(tc_iea),
        ic != tc_iea,
    ensures
        snip7_run(segs).errs.len() == 1,
        snip7_run(segs).errs[0].kind == ErrorKind::ControlNumberMismatch,
        snip7_run(segs).errs[0].segment_id == pad3(seq![73u8, 69u8, 65u8]),
        snip7_run(segs).errs[0].element == Some(1int),
{
    lemma_snip7_run_is_from(segs);
    assert(segs.take(0) =~= Seq::<SegView>::empty());
    lemma_snip7_unfold(segs, 1);
    lemma_snip7_unfold(segs, 2);
    lemma_snip7_unfold(segs, 3);
    lemma_snip7_unfold(segs, 4);
    lemma_snip7_unfold(segs, 5);
    lemma_snip7_unfold(segs, 6);
    assert(segs.take(6) =~= segs);
    let v1 = snip7_run(segs.take(1));
    assert(v1.isa_control == Some(ic) && v1.errs =~= Seq::<ErrView>::empty());
    let v2 = snip7_run(segs.take(2));
    assert(v2.gs_control == Some(g) && v2.errs == v1.errs);
    let v3 = snip7_run(segs.take(3));
    assert(v3.st_control == Some(tc) && v3.st_count == 1 && v3.errs == v2.errs);
    let v4 = snip7_run(segs.take(4));
    assert(v4.errs == v3.errs && v4.st_count == 0);
    let v5 = snip7_run(segs.take(5));
    assert(v5.errs == v4.errs);
    assert(snip7_run(segs).errs =~= seq![
        elem_err(
            ErrorKind::ControlNumberMismatch,
            seq![73u8, 69u8, 65u8],
            1,
            "IEA02 value "@ + dec_digits(tc_iea as nat) + " does not match ISA13 value "@
                + dec_digits(ic as nat),
            bump_usize(v5.count),
        ),
    ]);
}

proof fn lemma_snip7_unfold(segs: Seq<SegView>, k: int)
    requires
        1 <= k <= segs.len(),
    ensures
        snip7_run(segs.take(k)) == snip7_step(snip7_run(segs.take(k - 1)), segs[k - 1]),
{
    assert(segs.take(k).drop_last() =~= segs.take(k - 1));
    assert(segs.take(k).last() == segs[k - 1]);
}

/// The member was cleared in place: same kind, back to its fresh state.
pub open spec fn cleared_member(now: SuiteValidator, before: SuiteValidator) -> bool {
    match (now, before) {
        (SuiteValidator::Snip1(v), SuiteValidator::Snip1(_)) => v@ == snip1_init(),
        (SuiteValidator::Snip7(v), SuiteValidator::Snip7(_)) => v@ == snip7_init(),
        _ => false,
    }
}

/// The member stepped once on `s` from its previous state.
pub open spec fn stepped(now: SuiteValidator, before: SuiteValidator, s: SegView) -> bool {
    match (now, before) {
        (SuiteValidator::Snip1(v), SuiteValidator::Snip1(p)) => v@ == snip1_step(p@, s),
        (SuiteValidator::Snip7(v), SuiteValidator::Snip7(p)) => v@ == snip7_step(p@, s),
        _ => false,
    }
}

} // verus!
