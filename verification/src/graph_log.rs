//! The durable record of an index: its version, its highest layer and its
//! entry point.
use crate::elements::{EntryPoint, FileSegment, Node};
use crate::errors::DiskStructError;
use crate::wire::{
    bincode_log_record, deserialize_log_record, log_encoding, serialize_log_record, LogRecord,
};
use vstd::prelude::*;

verus! {

/// The durable record of an index.
#[derive(Clone, Copy, Debug, PartialEq, Eq)]
pub struct GraphLog {
    pub version_number: u128,
    pub max_layer: u64,
    pub entry_point: Option<EntryPoint>,
}

impl GraphLog {
    /// The fields of the log as plain numbers.
    pub open spec fn record(self) -> LogRecord {
        (
            self.version_number,
            self.max_layer,
            match self.entry_point {
                None => None,
                Some(ep) => Some((ep.node.vector.start, ep.node.vector.end, ep.layer)),
            },
        )
    }

    /// The log with the fields `record`.
    pub open spec fn of_record(record: LogRecord) -> GraphLog {
        GraphLog {
            version_number: record.0,
            max_layer: record.1,
            entry_point: match record.2 {
                None => None,
                Some(e) => Some(
                    EntryPoint { node: Node { vector: FileSegment { start: e.0, end: e.1 } }, layer: e.2 },
                ),
            },
        }
    }

    /// The log that `bytes` hold, if they hold one.
    pub open spec fn decoded(bytes: Seq<u8>) -> Option<GraphLog> {
        match bincode_log_record(bytes) {
            None => None,
            Some(record) => Some(GraphLog::of_record(record)),
        }
    }

    /// Taking a log apart and putting it together again changes nothing.
    pub proof fn lemma_record_round_trip(self)
        ensures
            GraphLog::of_record(self.record()) == self,
    {
    }

    /// The log of an index that holds nothing yet.
    pub fn new() -> (log: GraphLog)
        ensures
            log == (GraphLog { version_number: 0, max_layer: 0, entry_point: None }),
    {
        GraphLog { version_number: 0, max_layer: 0, entry_point: None }
    }

    /// The fields of the log as plain numbers.
    pub fn to_record(&self) -> (record: LogRecord)
        ensures
            record == self.record(),
    {
        let entry = match self.entry_point {
            None => None,
            Some(ep) => Some((ep.node.vector.start, ep.node.vector.end, ep.layer)),
        };
        (self.version_number, self.max_layer, entry)
    }

    /// The log with the fields `record`.
    pub fn from_record(record: LogRecord) -> (log: GraphLog)
        ensures
            log == GraphLog::of_record(record),
            log.record() == record,
    {
        let entry_point = match record.2 {
            None => None,
            Some(e) => Some(
                EntryPoint { node: Node { vector: FileSegment { start: e.0, end: e.1 } }, layer: e.2 },
            ),
        };
        GraphLog { version_number: record.0, max_layer: record.1, entry_point }
    }

    /// The stored form of the log. Every log has one: the bytes are the
    /// fixed-width form of the fields, and reading them gives this log again.
    pub fn to_bytes(&self) -> (r: Result<Vec<u8>, DiskStructError>)
        ensures
            match r {
                Ok(bytes) => bytes@ == log_encoding(self.record()) && GraphLog::decoded(bytes@)
                    == Some(*self),
                Err(_) => false,
            },
    {
        let record = self.to_record();
        match serialize_log_record(&record) {
            Ok(bytes) => Ok(bytes),
            Err(_) => Err(DiskStructError::Serialization),
        }
    }

    /// Reads a log from its stored form, and fails with `Serialization`
    /// exactly where the bytes hold none.
    pub fn from_bytes(bytes: &[u8]) -> (r: Result<GraphLog, DiskStructError>)
        ensures
            match r {
                Ok(log) => GraphLog::decoded(bytes@) == Some(log),
                Err(e) => e == DiskStructError::Serialization && GraphLog::decoded(bytes@) is None,
            },
    {
        match deserialize_log_record(bytes) {
            Ok(record) => Ok(GraphLog::from_record(record)),
            Err(_) => Err(DiskStructError::Serialization),
        }
    }
}

} // verus!
