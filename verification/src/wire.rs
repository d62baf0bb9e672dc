//! The binary form of the logs. The bytes are made and read by `bincode`;
//! what is assumed of it is stated on the four functions at the end.
use vstd::bytes::{spec_u128_to_le_bytes, spec_u64_to_le_bytes};
use vstd::prelude::*;

verus! {

/// The plain fields of a graph log: its version, its highest layer, and the
/// entry point as start, end and layer.
pub type LogRecord = (u128, u64, Option<(u64, u64, u64)>);

/// The error of `bincode`. Nothing is assumed of what it holds.
#[verifier::external_type_specification]
#[verifier::external_body]
pub struct ExErrorKind(bincode::ErrorKind);

/// An absent entry point is one zero byte; a present one is a one byte and
/// then start, end and layer, eight bytes each, lowest byte first.
pub open spec fn entry_encoding(entry: Option<(u64, u64, u64)>) -> Seq<u8> {
    match entry {
        None => seq![0u8],
        Some(e) => seq![1u8] + spec_u64_to_le_bytes(e.0) + spec_u64_to_le_bytes(e.1)
            + spec_u64_to_le_bytes(e.2),
    }
}

/// The stored form of a graph log: sixteen bytes of version, eight bytes of
/// highest layer, both lowest byte first, then the entry point.
pub open spec fn log_encoding(record: LogRecord) -> Seq<u8> {
    spec_u128_to_le_bytes(record.0) + spec_u64_to_le_bytes(record.1) + entry_encoding(record.2)
}

/// The byte ranges of `ranges` one after the other, start before end, eight
/// bytes each, lowest byte first.
pub open spec fn ranges_body(ranges: Seq<(u64, u64)>) -> Seq<u8>
    decreases ranges.len(),
{
    if ranges.len() == 0 {
        Seq::empty()
    } else {
        ranges_body(ranges.drop_last()) + spec_u64_to_le_bytes(ranges.last().0)
            + spec_u64_to_le_bytes(ranges.last().1)
    }
}

/// The stored form of a list of byte ranges: their number in eight bytes,
/// lowest byte first, then the ranges.
pub open spec fn ranges_encoding(ranges: Seq<(u64, u64)>) -> Seq<u8> {
    spec_u64_to_le_bytes(ranges.len() as u64) + ranges_body(ranges)
}

/// What `bincode::deserialize` makes of `bytes` when it is asked for the
/// fields of a graph log: the fields, or nothing where it reports an error.
pub uninterp spec fn bincode_log_record(bytes: Seq<u8>) -> Option<(u128, u64, Option<(u64, u64, u64)>)>;

/// What `bincode::deserialize` makes of `bytes` when it is asked for a list
/// of byte ranges: the list, or nothing where it reports an error.
pub uninterp spec fn bincode_ranges(bytes: Seq<u8>) -> Option<Seq<(u64, u64)>>;

/// Calls `bincode::serialize` on the fields of a graph log.
///
/// Assumed: it succeeds, the bytes are the fixed-width little-endian form
/// written out in `log_encoding`, and `bincode::deserialize` reads the same
/// fields back from them. It succeeds because nothing in it can fail on
/// such a value: `bincode::serialize` sets no size limit, it writes into a
/// vector, whose writes report no error, and the value is made of integers,
/// a tuple and an option, whose serde impls report no error of their own.
#[verifier::external_body]
pub(crate) fn serialize_log_record(record: &LogRecord) -> (r: Result<Vec<u8>, bincode::Error>)
    ensures
        match r {
            Ok(bytes) => bytes@ == log_encoding(*record) && bincode_log_record(bytes@) == Some(
                *record,
            ),
            Err(_) => false,
        },
{
    bincode::serialize(record)
}

/// Calls `bincode::deserialize` for the fields of a graph log.
///
/// Assumed: the outcome depends on the bytes alone.
#[verifier::external_body]
pub(crate) fn deserialize_log_record(bytes: &[u8]) -> (r: Result<LogRecord, bincode::Error>)
    ensures
        match r {
            Ok(record) => bincode_log_record(bytes@) == Some(record),
            Err(_) => bincode_log_record(bytes@) is None,
        },
{
    bincode::deserialize(bytes)
}

/// Calls `bincode::serialize` on a list of byte ranges.
///
/// Assumed: it succeeds, the bytes are the fixed-width little-endian form
/// written out in `ranges_encoding`, and `bincode::deserialize` reads the
/// same list back from them. It succeeds because nothing in it can fail on
/// such a value: `bincode::serialize` sets no size limit, it writes into a
/// vector, whose writes report no error, a vector tells its length, which is
/// all that bincode asks of a sequence, and its items are pairs of integers,
/// whose serde impls report no error of their own.
#[verifier::external_body]
pub(crate) fn serialize_ranges(ranges: &Vec<(u64, u64)>) -> (r: Result<Vec<u8>, bincode::Error>)
    ensures
        match r {
            Ok(bytes) => bytes@ == ranges_encoding(ranges@) && bincode_ranges(bytes@) == Some(
                ranges@,
            ),
            Err(_) => false,
        },
{
    bincode::serialize(ranges)
}

/// Calls `bincode::deserialize` for a list of byte ranges.
///
/// Assumed: the outcome depends on the bytes alone.
#[verifier::external_body]
pub(crate) fn deserialize_ranges(bytes: &[u8]) -> (r: Result<Vec<(u64, u64)>, bincode::Error>)
    ensures
        match r {
            Ok(ranges) => bincode_ranges(bytes@) == Some(ranges@),
            Err(_) => bincode_ranges(bytes@) is None,
        },
{
    bincode::deserialize(bytes)
}

} // verus!
