//! Accounting of body bytes against a declared Content-Length.
use vstd::prelude::*;

use crate::HootError;

verus! {

/// Counts the bytes of a body against the length that was declared for it.
#[derive(Clone, Copy, Debug)]
pub struct LengthChecker {
    expected: u64,
    consumed: u64,
}

impl LengthChecker {
    pub closed spec fn expected(self) -> nat {
        self.expected as nat
    }

    pub closed spec fn consumed(self) -> nat {
        self.consumed as nat
    }

    /// The checker never counts more than was declared.
    pub closed spec fn wf(self) -> bool {
        self.consumed <= self.expected
    }

    pub fn new(expected: u64) -> (r: Self)
        ensures
            r.wf(),
            r.expected() == expected,
            r.consumed() == 0,
    {
        LengthChecker { expected, consumed: 0 }
    }

    /// Counts `count` more bytes, failing with `err` (and counting nothing)
    /// where that would go beyond the declared length.
    pub fn append(&mut self, count: usize, err: HootError) -> (r: Result<(), HootError>)
        requires
            old(self).wf(),
        ensures
            final(self).wf(),
            final(self).expected() == old(self).expected(),
            old(self).consumed() + count <= old(self).expected() ==> r is Ok
                && final(self).consumed() == old(self).consumed() + count,
            old(self).consumed() + count > old(self).expected() ==> r == Err::<(), HootError>(err)
                && final(self).consumed() == old(self).consumed(),
    {
        let room = self.expected - self.consumed;
        if count as u64 > room {
            return Err(err);
        }
        self.consumed = self.consumed + count as u64;
        Ok(())
    }

    /// Whether exactly the declared length has been counted.
    pub fn complete(&self) -> (r: bool)
        ensures
            r == (self.consumed() == self.expected()),
    {
        self.consumed == self.expected
    }

    /// Fails with `err` where fewer bytes than declared have been counted.
    pub fn assert_expected(&self, err: HootError) -> (r: Result<(), HootError>)
        ensures
            r == (if self.consumed() < self.expected() { Err(err) } else { Ok(()) }),
    {
        if self.consumed < self.expected {
            Err(err)
        } else {
            Ok(())
        }
    }
}

} // verus!
