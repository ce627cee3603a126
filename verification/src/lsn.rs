//! Log sequence numbers.

use vstd::prelude::*;

use crate::text::decimal;
use crate::text::decimal_text;

verus! {

/// Log sequence number, a newtype so that it cannot be mixed up with byte
/// offsets and counts.
///
/// `Lsn(0)` is reserved for "none"; records are numbered densely from 1.
#[derive(Clone, Copy, PartialEq, Eq, PartialOrd, Ord, Debug, Hash, Structural)]
pub struct Lsn(pub u64);

/// The number that follows `n`, staying at the maximum once it is reached.
pub open spec fn next_lsn(n: u64) -> u64 {
    if n == u64::MAX {
        n
    } else {
        (n + 1) as u64
    }
}

impl Lsn {
    /// The reserved "none" value, never assigned to a record.
    #[must_use]
    pub fn none() -> (n: Lsn)
        ensures
            n.0 == 0,
    {
        Lsn(0)
    }

    /// The first record's number.
    #[must_use]
    pub fn first() -> (n: Lsn)
        ensures
            n.0 == 1,
    {
        Lsn(1)
    }

    /// The next number in sequence. It saturates, so that no input makes
    /// recovery overflow.
    #[must_use]
    pub fn next(self) -> (n: Lsn)
        ensures
            n.0 == next_lsn(self.0),
    {
        Lsn(self.0.saturating_add(1))
    }

    /// Whether this is the reserved value.
    #[must_use]
    pub fn is_none(self) -> (b: bool)
        ensures
            b == (self.0 == 0),
    {
        self.0 == 0
    }

    /// The number in decimal.
    pub fn to_string(&self) -> (s: String)
        ensures
            s@ == decimal(self.0 as nat),
    {
        decimal_text(self.0)
    }
}

} // verus!
