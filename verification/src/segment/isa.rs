//! A decoded view of the interchange control header's commonly used fields.

use vstd::prelude::*;

use crate::segment::qualifier::Qualifier;

verus! {

/// The commonly used fields of an ISA header, borrowed from the parse
/// buffer.
pub struct ISA<'buf> {
    /// ISA-01: authorization information qualifier.
    pub isa_01: &'buf [u8],
    /// ISA-02: authorization information.
    pub isa_02: &'buf [u8],
    /// ISA-03: security information qualifier.
    pub isa_03: &'buf [u8],
    /// ISA-04: security information.
    pub isa_04: &'buf [u8],
    /// ISA-05: sender ID qualifier.
    pub isa_05: Qualifier<'buf>,
    /// ISA-06: sender ID.
    pub isa_06: &'buf [u8],
    /// ISA-07: receiver ID qualifier.
    pub isa_07: Qualifier<'buf>,
    /// ISA-08: receiver ID.
    pub isa_08: &'buf [u8],
    /// ISA-09: interchange date.
    pub isa_09: IsaDate,
    /// ISA-10: interchange time.
    pub isa_10: IsaTime,
}

/// An interchange date, as the header carries it: YYMMDD.
#[derive(Debug, Clone, Copy, PartialEq, Eq, Structural)]
pub struct IsaDate {
    /// Two-digit year, 0 to 99.
    pub year: u8,
    /// Month, 1 to 12.
    pub month: u8,
    /// Day, 1 to 31.
    pub day: u8,
}

/// An interchange time, as the header carries it: HHMM.
#[derive(Debug, Clone, Copy, PartialEq, Eq, Structural)]
pub struct IsaTime {
    /// Hour, 0 to 23.
    pub hour: u8,
    /// Minute, 0 to 59.
    pub minute: u8,
}

impl<'buf> ISA<'buf> {
    /// The sender ID qualifier (ISA-05).
    pub fn sender_qualifier(&self) -> (q: Qualifier<'buf>)
        ensures
            q@ == self.isa_05@,
    {
        self.isa_05
    }

    /// The sender ID (ISA-06).
    pub fn sender_id(&self) -> (r: &'buf [u8])
        ensures
            r@ == self.isa_06@,
    {
        self.isa_06
    }

    /// The receiver ID qualifier (ISA-07).
    pub fn receiver_qualifier(&self) -> (q: Qualifier<'buf>)
        ensures
            q@ == self.isa_07@,
    {
        self.isa_07
    }

    /// The receiver ID (ISA-08).
    pub fn receiver_id(&self) -> (r: &'buf [u8])
        ensures
            r@ == self.isa_08@,
    {
        self.isa_08
    }

    /// The interchange date (ISA-09).
    pub fn date(&self) -> (d: IsaDate)
        ensures
            d == self.isa_09,
    {
        self.isa_09
    }

    /// The interchange time (ISA-10).
    pub fn time(&self) -> (t: IsaTime)
        ensures
            t == self.isa_10,
    {
        self.isa_10
    }
}

} // verus!
