//! The undo-style log record describing one transaction's update of a
//! string field inside one block.
//!
//! Binary layout, all integers 4-byte big-endian and both the file name
//! and the value length-prefixed UTF-8 blobs:
//! `[op][txnum][filename][block number][field offset][value]`.

use vstd::prelude::*;
use vstd::utf8::{decode_utf8, encode_utf8, valid_utf8};
use crate::blockid::BlockId;
use crate::filemanager::FileMgr;
use crate::logmanager::{LogError, LogMgr};
use crate::page::{bytes_at, bytes_fit, int_at, int_fits, spec_i32_to_be, string_to_utf8, Page, PageError};

verus! {

/// Offset of the block-number field: past the op code, the transaction
/// number and the file-name blob.
pub open spec fn spec_bpos(s: Seq<u8>) -> int {
    12 + int_at(s, 8)
}

/// Offset of the value blob: past the block number and the field offset.
pub open spec fn spec_vpos(s: Seq<u8>) -> int {
    spec_bpos(s) + 8
}

/// Whether a buffer holds a complete string-update record body: every
/// field lies within the buffer and both blobs are UTF-8.
pub open spec fn set_string_decodable(s: Seq<u8>) -> bool {
    &&& int_fits(4, s.len() as int)
    &&& int_fits(8, s.len() as int)
    &&& int_at(s, 8) >= 0
    &&& bytes_fit(8, int_at(s, 8) as int, s.len() as int)
    &&& valid_utf8(bytes_at(s, 8))
    &&& int_fits(spec_bpos(s), s.len() as int)
    &&& int_fits(spec_bpos(s) + 4, s.len() as int)
    &&& int_fits(spec_vpos(s), s.len() as int)
    &&& int_at(s, spec_vpos(s)) >= 0
    &&& bytes_fit(spec_vpos(s), int_at(s, spec_vpos(s)) as int, s.len() as int)
    &&& valid_utf8(bytes_at(s, spec_vpos(s)))
}

/// The exact bytes of a string-update record.
pub open spec fn spec_set_string_record(
    txnum: i32,
    fname: Seq<char>,
    blknum: u64,
    offset: i32,
    val: Seq<char>,
) -> Seq<u8> {
    spec_i32_to_be(crate::logrecord::SETSTRING) + spec_i32_to_be(txnum) + spec_i32_to_be(
        encode_utf8(fname).len() as i32,
    ) + encode_utf8(fname) + spec_i32_to_be(blknum as i32) + spec_i32_to_be(offset)
        + spec_i32_to_be(encode_utf8(val).len() as i32) + encode_utf8(val)
}

/// A decoded string-update record.
pub struct SetStringRecord {
    /// The transaction that made the update.
    pub txnum: i32,
    /// Byte offset of the updated field within the block.
    pub offset: i32,
    /// The value the record carries.
    pub val: String,
    /// The block the update touched.
    pub blk: BlockId,
}

impl SetStringRecord {
    /// The record's fields are exactly what buffer `s` stores at the
    /// layout's positions.
    pub open spec fn decodes(self, s: Seq<u8>) -> bool {
        &&& self.txnum == int_at(s, 4)
        &&& self.blk.filename@ == decode_utf8(bytes_at(s, 8))
        &&& self.blk.blknum == int_at(s, spec_bpos(s)) as u64
        &&& self.offset == int_at(s, spec_bpos(s) + 4)
        &&& self.val@ == decode_utf8(bytes_at(s, spec_vpos(s)))
    }

    /// Decodes a string-update record body from a page (the op code at
    /// offset 0 is the caller's concern).
    pub fn new(p: &Page) -> (r: Result<SetStringRecord, PageError>)
        ensures
            r is Ok <==> set_string_decodable(p@),
            r is Ok ==> r->Ok_0.decodes(p@),
    {
        let txnum: i32 = match p.get_int(4) {
            Ok(v) => v,
            Err(e) => {
                return Err(e);
            },
        };
        let fname_bytes: Vec<u8> = match p.get_bytes(8) {
            Ok(v) => v,
            Err(e) => {
                return Err(e);
            },
        };
        let bpos: usize = 12 + fname_bytes.len();
        let filename: String = match crate::page::string_from_utf8(fname_bytes) {
            Some(s) => s,
            None => {
                return Err(PageError::InvalidUtf8);
            },
        };
        let blknum: i32 = match p.get_int(bpos) {
            Ok(v) => v,
            Err(e) => {
                return Err(e);
            },
        };
        let offset: i32 = match p.get_int(bpos + 4) {
            Ok(v) => v,
            Err(e) => {
                return Err(e);
            },
        };
        let val: String = match p.get_string(bpos + 8) {
            Ok(v) => v,
            Err(e) => {
                return Err(e);
            },
        };
        Ok(SetStringRecord { txnum, offset, val, blk: BlockId { filename, blknum: blknum as u64 } })
    }

    /// The record kind's operation code.
    pub fn op(&self) -> (r: i32)
        ensures
            r == crate::logrecord::SETSTRING,
    {
        crate::logrecord::SETSTRING
    }

    /// The transaction that made the update.
    pub fn tx_number(&self) -> (r: i32)
        ensures
            r == self.txnum,
    {
        self.txnum
    }

    /// Serializes a string-update record and appends it to the log,
    /// returning the new record's log sequence number.
    pub fn write_to_log(
        lm: &mut LogMgr,
        fm: &mut FileMgr,
        txnum: i32,
        blk: BlockId,
        offset: i32,
        val: String,
    ) -> (r: Result<u64, LogError>)
        requires
            old(lm).wf(*old(fm)),
            old(lm).latest_lsn < u64::MAX,
        ensures
            final(fm).same_config(*old(fm)),
            r is Ok <==> encode_utf8(blk.filename@).len() + encode_utf8(val@).len() + 32 <= old(
                fm,
            ).blocksize,
            r is Err ==> *final(lm) == *old(lm) && *final(fm) == *old(fm) && r->Err_0
                == LogError::RecordTooLarge,
            r is Ok ==> (final(lm).wf(*final(fm)) && r->Ok_0 == old(lm).latest_lsn + 1
                && final(lm).latest_lsn == old(lm).latest_lsn + 1 && final(lm).logfile@ == old(
                lm,
            ).logfile@ && final(lm).records(*final(fm)) == old(lm).records(*old(fm)).push(
                spec_set_string_record(txnum, blk.filename@, blk.blknum, offset, val@),
            ) && final(fm).same_files_except(*old(fm), old(lm).logfile@)),
    {
        let fname_bytes: Vec<u8> = string_to_utf8(blk.filename());
        let flen: usize = fname_bytes.len();
        let val_bytes: Vec<u8> = string_to_utf8(val.as_str());
        let vlen: usize = val_bytes.len();
        let bs: usize = fm.blocksize();
        if flen > bs || vlen > bs {
            return Err(LogError::RecordTooLarge);
        }
        if flen + vlen > bs {
            return Err(LogError::RecordTooLarge);
        }
        if flen + vlen + 32 > bs {
            return Err(LogError::RecordTooLarge);
        }
        let bpos: usize = 12 + flen;
        let opos: usize = bpos + 4;
        let vpos: usize = opos + 4;
        let reclen: usize = vpos + 4 + vlen;
        let mut page = Page::new_from_size(reclen);
        let r1 = page.set_int(0, crate::logrecord::SETSTRING);
        let r2 = page.set_int(4, txnum);
        let r3 = page.set_bytes(8, &fname_bytes);
        let r4 = page.set_int(bpos, #[verifier::truncate] (blk.number() as i32));
        let r5 = page.set_int(opos, offset);
        let r6 = page.set_bytes(vpos, &val_bytes);
        proof {
            assert(r1 is Ok && r2 is Ok && r3 is Ok && r4 is Ok && r5 is Ok && r6 is Ok);
            assert(page@ =~= spec_set_string_record(txnum, blk.filename@, blk.blknum, offset, val@));
        }
        match lm.append(fm, page.contents()) {
            Ok(lsn) => Ok(lsn),
            Err(_) => {
                proof {
                    assert(false);
                }
                Err(LogError::RecordTooLarge)
            },
        }
    }
}

} // verus!
