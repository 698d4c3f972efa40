use vstd::prelude::*;

verus! {

/// A position in the write-ahead log of a timeline.
#[derive(Clone, Copy, Debug, PartialEq, Eq, Structural)]
pub struct Lsn(pub u64);

/// Records start on a boundary of this many bytes.
pub const LSN_ALIGNMENT: u64 = 8;

impl Lsn {
    /// A position is aligned when it is a multiple of `LSN_ALIGNMENT`.
    pub open spec fn aligned(self) -> bool {
        self.0 % LSN_ALIGNMENT == 0
    }

    pub fn is_aligned(&self) -> (r: bool)
        ensures
            r == self.aligned(),
    {
        self.0 % LSN_ALIGNMENT == 0
    }
}

} // verus!
