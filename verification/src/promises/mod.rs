//! What the operations are for: laws on the results of calls.
//!
//! Each law speaks of calls of the library's functions, by what they are given, what
//! they return and what they leave behind, and of the files and payloads that callers
//! see: bytes at offsets, numbers in them, and payloads as they were appended.

pub mod codec;
pub mod harness;
pub mod opening;
pub mod reading;
pub mod reclaiming;
pub mod recovery;
pub mod scenarios;
pub mod segments;
pub mod values;
pub mod writing;
