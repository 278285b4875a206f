//! Data model of the store: log entries, persisted metadata, snapshots and
//! the wire-level request/response shapes, together with their abstract
//! views.

use vstd::prelude::*;
use crate::kv::Row;

verus! {

/// Kind of a log entry: an ordinary command or a membership change.
#[derive(Clone, Copy, PartialEq, Eq, Structural, Debug)]
pub enum EntryKind {
    Normal,
    ConfChange,
}

/// One entry of the replicated log.
#[derive(Debug, Clone, PartialEq)]
pub struct LogEntry {
    pub index: u64,
    pub term: u64,
    pub kind: EntryKind,
    pub data: Vec<u8>,
}

/// Abstract view of a log entry.
pub ghost struct EntryModel {
    pub index: u64,
    pub term: u64,
    pub kind: EntryKind,
    pub data: Seq<u8>,
}

impl View for LogEntry {
    type V = EntryModel;

    open spec fn view(&self) -> EntryModel {
        EntryModel { index: self.index, term: self.term, kind: self.kind, data: self.data@ }
    }
}

/// Abstract view of a data row.
pub ghost struct RowModel {
    pub key: Seq<u8>,
    pub value: Seq<u8>,
}

impl View for Row {
    type V = RowModel;

    open spec fn view(&self) -> RowModel {
        RowModel { key: self.key@, value: self.value@ }
    }
}

/// The highest compacted log position.
#[derive(Clone, Copy, PartialEq, Eq, Structural, Debug)]
pub struct TruncatedState {
    pub index: u64,
    pub term: u64,
}

/// Persisted consensus metadata needed to resume after a restart.
#[derive(Clone, Copy, PartialEq, Eq, Structural, Debug)]
pub struct HardState {
    pub term: u64,
    pub vote: u64,
    pub commit: u64,
}

/// The current voter set.
#[derive(Debug, Clone, PartialEq)]
pub struct ConfState {
    pub voters: Vec<u64>,
}

impl View for ConfState {
    type V = Seq<u64>;

    open spec fn view(&self) -> Seq<u64> {
        self.voters@
    }
}

/// A self-contained substitute for all log entries up to `index`.
#[derive(Debug, Clone, PartialEq)]
pub struct Snapshot {
    pub index: u64,
    pub term: u64,
    pub conf_state: ConfState,
    pub data: Vec<u8>,
}

/// Abstract view of a snapshot.
pub ghost struct SnapshotModel {
    pub index: u64,
    pub term: u64,
    pub voters: Seq<u64>,
    pub data: Seq<u8>,
}

impl View for Snapshot {
    type V = SnapshotModel;

    open spec fn view(&self) -> SnapshotModel {
        SnapshotModel {
            index: self.index,
            term: self.term,
            voters: self.conf_state@,
            data: self.data@,
        }
    }
}

/// Op code of a read command.
pub const OP_READ: u32 = 1;

/// Op code of a write command.
pub const OP_WRITE: u32 = 2;

/// Op code of a delete command.
pub const OP_DELETE: u32 = 3;

/// Op code of an administrative status query.
pub const OP_STATUS: u32 = 128;

/// A client command.
#[derive(Debug, PartialEq)]
pub struct Request {
    pub id: u64,
    pub op: u32,
    pub row: Row,
}

/// Abstract view of a client command.
pub ghost struct RequestModel {
    pub id: u64,
    pub op: u32,
    pub key: Seq<u8>,
    pub value: Seq<u8>,
}

impl View for Request {
    type V = RequestModel;

    open spec fn view(&self) -> RequestModel {
        RequestModel { id: self.id, op: self.op, key: self.row.key@, value: self.row.value@ }
    }
}

/// The answer handed back to a waiting caller.
#[derive(Debug, PartialEq)]
pub struct Response {
    pub id: u64,
    pub ok: bool,
    pub op: u32,
    pub value: Option<Vec<u8>>,
}

/// Abstract view of a response.
pub ghost struct ResponseModel {
    pub id: u64,
    pub ok: bool,
    pub op: u32,
    pub value: Option<Seq<u8>>,
}

impl View for Response {
    type V = ResponseModel;

    open spec fn view(&self) -> ResponseModel {
        ResponseModel {
            id: self.id,
            ok: self.ok,
            op: self.op,
            value: match self.value {
                Some(v) => Some(v@),
                None => None,
            },
        }
    }
}

/// The answer to a status query.
#[derive(Clone, Copy, PartialEq, Eq, Structural, Debug)]
pub struct Status {
    pub leader_id: u64,
    pub id: u64,
    pub first_index: u64,
    pub last_index: u64,
    pub term: u64,
    pub apply_index: u64,
    pub commit_index: u64,
}

/// The error taxonomy of the store and driver.
///
/// `Compacted`, `Unavailable` and `SnapshotTemporarilyUnavailable` are
/// recoverable for the consensus core, which owns the retry policy for
/// them.  `InvalidRange`, `UnknownOp` and `Corrupt` are the fatal class —
/// a malformed range, an unknown op code, a record that fails to decode —
/// after which the node must stop rather than risk diverging.  Verified
/// functions never panic, so the fatal class is surfaced as a value with
/// an exact contract saying when it arises; the process boundary that owns
/// the node is the place that aborts on it, and never hands it to the
/// consensus core as a recoverable signal.
#[derive(Clone, Copy, PartialEq, Eq, Structural, Debug)]
pub enum StoreError {
    Compacted,
    Unavailable,
    SnapshotTemporarilyUnavailable,
    InvalidRange,
    UnknownOp,
    Corrupt,
}

} // verus!
