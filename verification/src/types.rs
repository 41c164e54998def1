//! The data model: one file write, an atomic batch of writes, the two
//! on-disk record shapes, and the engine's error type.

use vstd::prelude::*;

verus! {

/// One file's desired final content, at a path relative to the root.
#[derive(Debug, Clone)]
pub struct WriteOperation {
    pub path: String,
    pub content: String,
}

/// The mathematical value of a [`WriteOperation`].
pub struct OpView {
    pub path: Seq<char>,
    pub content: Seq<char>,
}

impl View for WriteOperation {
    type V = OpView;

    open spec fn view(&self) -> OpView {
        OpView { path: self.path@, content: self.content@ }
    }
}

/// A caller-defined atomic batch of writes; `operations` apply in order.
#[derive(Debug)]
pub struct Transaction {
    pub id: String,
    pub operations: Vec<WriteOperation>,
}

/// The mathematical value of a [`Transaction`].
pub struct TransactionView {
    pub id: Seq<char>,
    pub operations: Seq<OpView>,
}

impl View for Transaction {
    type V = TransactionView;

    open spec fn view(&self) -> TransactionView {
        TransactionView {
            id: self.id@,
            operations: self.operations@.map_values(|op: WriteOperation| op@),
        }
    }
}

/// The durable projection of an accepted, not yet completed transaction:
/// one line of the write-ahead log.
#[derive(Debug)]
pub struct WalEntry {
    pub transaction_id: String,
    pub operations: Vec<WriteOperation>,
}

/// The mathematical value of a [`WalEntry`].
pub struct WalEntryView {
    pub transaction_id: Seq<char>,
    pub operations: Seq<OpView>,
}

impl View for WalEntry {
    type V = WalEntryView;

    open spec fn view(&self) -> WalEntryView {
        WalEntryView {
            transaction_id: self.transaction_id@,
            operations: self.operations@.map_values(|op: WriteOperation| op@),
        }
    }
}

/// The durable audit record of a completed transaction: one line of the
/// ops log.
#[derive(Debug)]
pub struct OpsLogEntry {
    pub id: String,
    pub timestamp: u64,
    pub transaction_id: String,
    pub operations: Vec<WriteOperation>,
}

/// The mathematical value of an [`OpsLogEntry`].
pub struct OpsLogEntryView {
    pub id: Seq<char>,
    pub timestamp: u64,
    pub transaction_id: Seq<char>,
    pub operations: Seq<OpView>,
}

impl View for OpsLogEntry {
    type V = OpsLogEntryView;

    open spec fn view(&self) -> OpsLogEntryView {
        OpsLogEntryView {
            id: self.id@,
            timestamp: self.timestamp,
            transaction_id: self.transaction_id@,
            operations: self.operations@.map_values(|op: WriteOperation| op@),
        }
    }
}

/// What can go wrong inside the engine's own logic.  I/O failures are the
/// caller's to report; the engine itself only ever rejects a log line it
/// cannot parse or an operation path that could escape the root.
#[derive(Debug, PartialEq, Eq, Structural, Clone, Copy)]
pub enum EngineError {
    /// The log line with this zero-based index is malformed.
    Malformed { line: usize },
    /// An operation's path is absolute or escapes the root.
    UnsafePath,
}

} // verus!
