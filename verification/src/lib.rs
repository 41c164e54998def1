//! A transactional write-ahead-log engine for atomic batches of file-content
//! writes under a single root directory.
//!
//! The library holds the pure core: the record codec for the on-disk
//! line-delimited logs, the framing of a log file into lines, the planning of
//! an `apply` or `recover` run, the audit-log reader, and a mathematical model
//! of the target directory against which the engine's guarantees are proved.
//! The surrounding process performs the actual file reads and writes in the
//! order the plans dictate.

pub mod codec;
pub mod engine;
pub mod fsmodel;
pub mod text;
pub mod types;
