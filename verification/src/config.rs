//! Configuration of a log.

use vstd::prelude::*;

verus! {

/// Configuration of a log, supplied by its caller.
#[derive(Clone, Copy, Debug)]
pub struct WalConfig {
    /// Bytes allocated for each segment file.
    pub segment_size: u64,
    /// Upper bound on the length of one record's payload.
    pub max_record_size: u32,
}

/// Bytes that a segment needs besides a payload: its header, one record header
/// and the longest padding.
pub const SEGMENT_OVERHEAD: u64 = 91;

impl WalConfig {
    /// A record never spans two segments: the longest one has to fit into a
    /// fresh segment. The bound is additive, so that a segment smaller than the
    /// overhead does not pass.
    pub open spec fn valid(self) -> bool {
        self.max_record_size + SEGMENT_OVERHEAD <= self.segment_size
    }

    /// Checks the bound.
    pub fn is_valid(&self) -> (b: bool)
        ensures
            b == self.valid(),
    {
        self.max_record_size as u64 + SEGMENT_OVERHEAD <= self.segment_size
    }
}

impl Default for WalConfig {
    /// A segment of 128 MiB and payloads of at most 1 MiB.
    fn default() -> (c: Self)
        ensures
            c.segment_size == 128 * 1024 * 1024,
            c.max_record_size == 1024 * 1024,
            c.valid(),
    {
        WalConfig { segment_size: 128 * 1024 * 1024, max_record_size: 1024 * 1024 }
    }
}

} // verus!
