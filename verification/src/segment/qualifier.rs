//! Interchange ID qualifiers: two-byte codes that say how an interchange
//! sender or receiver identifier is to be read.

use vstd::prelude::*;

verus! {

/// A borrowed interchange ID qualifier code.
#[derive(Debug, Clone, Copy)]
pub struct Qualifier<'buf> {
    value: &'buf [u8],
}

impl<'buf> View for Qualifier<'buf> {
    type V = Seq<u8>;

    closed spec fn view(&self) -> Seq<u8> {
        self.value@
    }
}

impl<'buf> From<&'buf [u8]> for Qualifier<'buf> {
    fn from(value: &'buf [u8]) -> (q: Self)
        ensures
            q@ == value@,
    {
        Qualifier { value }
    }
}

impl<'buf> vstd::std_specs::convert::FromSpecImpl<&'buf [u8]> for Qualifier<'buf> {
    closed spec fn obeys_from_spec() -> bool {
        true
    }

    closed spec fn from_spec(value: &'buf [u8]) -> Self {
        Qualifier { value }
    }
}

impl<'buf> Qualifier<'buf> {
    /// The code `12`: the identifier is a telephone number.
    pub fn is_phone_number(&self) -> (r: bool)
        ensures
            r == (self@ == seq![49u8, 50u8]),
    {
        let r = self.value.len() == 2 && *vstd::slice::slice_index_get(self.value, 0) == 49
            && *vstd::slice::slice_index_get(self.value, 1) == 50;
        proof {
            if r {
                assert(self@ =~= seq![49u8, 50u8]);
            } else {
                assert(self@ != seq![49u8, 50u8]);
            }
        }
        r
    }
}

} // verus!
