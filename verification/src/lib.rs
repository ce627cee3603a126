//! A single-writer, append-only write-ahead log: the record codec, the segment
//! format, crash recovery, replay and the writer's decisions, each with a
//! contract that Verus proves.
//!
//! The library does no I/O. [`Wal::open`], [`Wal::commit`] and [`Wal::checkpoint`]
//! ask their caller for one operation on the log's directory at a time and take the
//! report of it; a [`Reader`] is handed the bytes of one segment after the other.
//! What the operations do to the directory, what a crash leaves of it, and what
//! opening and replaying it bring back is stated and proved in [`disk`], [`reopen`],
//! [`history`] and [`grouping`]. What each call is for, by what it is given and what it
//! returns, is stated and proved in [`promises`].

use vstd::prelude::*;

pub mod bytes;
pub mod config;
pub mod crc;
pub mod disk;
pub mod error;
pub mod fuzzing;
pub mod grouping;
pub mod harness;
pub mod history;
pub mod image;
pub mod lsn;
pub mod observer;
pub mod open;
pub mod promises;
pub mod reader;
pub mod record;
pub mod recovery;
pub mod reopen;
pub mod scenario;
pub mod script;
pub mod segment;
pub mod text;
pub mod wal;

pub use config::WalConfig;
pub use crc::crc32c;
pub use error::WalError;
pub use lsn::Lsn;
pub use observer::DurabilityObserver;
pub use observer::NullObserver;
pub use open::OpenAction;
pub use open::OpenReply;
pub use open::Opening;
pub use open::RecoveryReport;
pub use reader::Reader;
pub use reader::Replay;
pub use recovery::TailState;
pub use wal::CheckpointAction;
pub use wal::CheckpointEvent;
pub use wal::CommitAction;
pub use wal::CommitEvent;
pub use wal::Wal;

verus! {

} // verus!
