//! The closed set of log-record kinds, keyed by the operation code that
//! starts every record.

use vstd::prelude::*;
use crate::page::{int_at, int_fits, Page, PageError};
use crate::setintrecord::{set_int_decodable, SetIntRecord};
use crate::setstringrecord::{set_string_decodable, SetStringRecord};

verus! {

/// Operation code of a checkpoint record (reserved, not decoded here).
pub const CHECKPOINT: i32 = 0;

/// Operation code of a transaction-start record (reserved).
pub const START: i32 = 1;

/// Operation code of a commit record (reserved).
pub const COMMIT: i32 = 2;

/// Operation code of a rollback record (reserved).
pub const ROLLBACK: i32 = 3;

/// Operation code of an integer-update record.
pub const SETINT: i32 = 4;

/// Operation code of a string-update record.
pub const SETSTRING: i32 = 5;

/// Failure of log-record decoding.
#[derive(Debug, Clone, Copy, PartialEq, Eq, Structural)]
pub enum LogRecordError {
    /// The operation code is not one this core decodes.
    UnknownRecord,
    /// The record's bytes do not fit the layout its code promises.
    Malformed,
}

/// A decoded log record.
pub enum LogRecord {
    /// An undo record for an integer update.
    SetInt(SetIntRecord),
    /// An undo record for a string update.
    SetString(SetStringRecord),
}

/// Decodes one raw log record. Only integer- and string-update records
/// are decoded; any other operation code is refused as unknown.
pub fn create_logrecord(bytes: Vec<u8>) -> (r: Result<LogRecord, LogRecordError>)
    ensures
        r is Ok ==> int_fits(0, bytes@.len() as int),
        r is Ok && r->Ok_0 is SetInt <==> int_fits(0, bytes@.len() as int) && int_at(bytes@, 0)
            == SETINT && set_int_decodable(bytes@),
        r is Ok && r->Ok_0 is SetString <==> int_fits(0, bytes@.len() as int) && int_at(bytes@, 0)
            == SETSTRING && set_string_decodable(bytes@),
        r is Ok && r->Ok_0 is SetInt ==> r->Ok_0->SetInt_0.decodes(bytes@),
        r is Ok && r->Ok_0 is SetString ==> r->Ok_0->SetString_0.decodes(bytes@),
        r is Err && r->Err_0 == LogRecordError::UnknownRecord <==> int_fits(0, bytes@.len() as int)
            && int_at(bytes@, 0) != SETINT && int_at(bytes@, 0) != SETSTRING,
{
    let p = Page::new_from_bytes(bytes);
    let op: i32 = match p.get_int(0) {
        Ok(v) => v,
        Err(_) => {
            return Err(LogRecordError::Malformed);
        },
    };
    if op == SETINT {
        match SetIntRecord::new(&p) {
            Ok(rec) => Ok(LogRecord::SetInt(rec)),
            Err(_) => Err(LogRecordError::Malformed),
        }
    } else if op == SETSTRING {
        match SetStringRecord::new(&p) {
            Ok(rec) => Ok(LogRecord::SetString(rec)),
            Err(_) => Err(LogRecordError::Malformed),
        }
    } else {
        Err(LogRecordError::UnknownRecord)
    }
}

} // verus!
