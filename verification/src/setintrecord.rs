//! The undo-style log record describing one transaction's update of a
//! 32-bit integer field inside one block.
//!
//! Binary layout, all integers 4-byte big-endian and the file name a
//! length-prefixed UTF-8 blob:
//! `[op][txnum][filename][block number][field offset][value]`.

use vstd::prelude::*;
use vstd::utf8::{decode_utf8, encode_utf8, valid_utf8};
use crate::blockid::BlockId;
use crate::filemanager::FileMgr;
use crate::logmanager::{LogError, LogMgr};
use crate::page::{bytes_at, bytes_fit, int_at, int_fits, spec_i32_to_be, string_to_utf8, Page, PageError};

verus! {

/// Offset of the block-number field: past the op code, the transaction
/// number and the file-name blob.
pub open spec fn spec_bpos(s: Seq<u8>) -> int {
    12 + int_at(s, 8)
}

/// Whether a buffer holds a complete integer-update record body: every
/// field lies within the buffer and the file name is UTF-8.
pub open spec fn set_int_decodable(s: Seq<u8>) -> bool {
    &&& int_fits(4, s.len() as int)
    &&& int_fits(8, s.len() as int)
    &&& int_at(s, 8) >= 0
    &&& bytes_fit(8, int_at(s, 8) as int, s.len() as int)
    &&& valid_utf8(bytes_at(s, 8))
    &&& int_fits(spec_bpos(s), s.len() as int)
    &&& int_fits(spec_bpos(s) + 4, s.len() as int)
    &&& int_fits(spec_bpos(s) + 8, s.len() as int)
}

/// The exact bytes of an integer-update record.
pub open spec fn spec_set_int_record(
    txnum: i32,
    fname: Seq<char>,
    blknum: u64,
    offset: i32,
    val: i32,
) -> Seq<u8> {
    spec_i32_to_be(crate::logrecord::SETINT) + spec_i32_to_be(txnum) + spec_i32_to_be(
        encode_utf8(fname).len() as i32,
    ) + encode_utf8(fname) + spec_i32_to_be(blknum as i32) + spec_i32_to_be(offset)
        + spec_i32_to_be(val)
}

/// A decoded integer-update record.
pub struct SetIntRecord {
    /// The transaction that made the update.
    pub txnum: i32,
    /// Byte offset of the updated field within the block.
    pub offset: i32,
    /// The value the record carries.
    pub val: i32,
    /// The block the update touched.
    pub blk: BlockId,
}

impl SetIntRecord {
    /// The record's fields are exactly what buffer `s` stores at the
    /// layout's positions.
    pub open spec fn decodes(self, s: Seq<u8>) -> bool {
        &&& self.txnum == int_at(s, 4)
        &&& self.blk.filename@ == decode_utf8(bytes_at(s, 8))
        &&& self.blk.blknum == int_at(s, spec_bpos(s)) as u64
        &&& self.offset == int_at(s, spec_bpos(s) + 4)
        &&& self.val == int_at(s, spec_bpos(s) + 8)
    }

    /// Decodes an integer-update record body from a page (the op code at
    /// offset 0 is the caller's concern).
    pub fn new(p: &Page) -> (r: Result<SetIntRecord, PageError>)
        ensures
            r is Ok <==> set_int_decodable(p@),
            r is Ok ==> r->Ok_0.decodes(p@),
    {
        let txnum: i32 = match p.get_int(4) {
            Ok(v) => v,
            Err(e) => {
                return Err(e);
            },
        };
        let fname_bytes: Vec<u8> = match p.get_bytes(8) {
            Ok(v) => v,
            Err(e) => {
                return Err(e);
            },
        };
        let bpos: usize = 12 + fname_bytes.len();
        let filename: String = match crate::page::string_from_utf8(fname_bytes) {
            Some(s) => s,
            None => {
                return Err(PageError::InvalidUtf8);
            },
        };
        let blknum: i32 = match p.get_int(bpos) {
            Ok(v) => v,
            Err(e) => {
                return Err(e);
            },
        };
        let offset: i32 = match p.get_int(bpos + 4) {
            Ok(v) => v,
            Err(e) => {
                return Err(e);
            },
        };
        let val: i32 = match p.get_int(bpos + 8) {
            Ok(v) => v,
            Err(e) => {
                return Err(e);
            },
        };
        Ok(SetIntRecord { txnum, offset, val, blk: BlockId { filename, blknum: blknum as u64 } })
    }

    /// The record kind's operation code.
    pub fn op(&self) -> (r: i32)
        ensures
            r == crate::logrecord::SETINT,
    {
        crate::logrecord::SETINT
    }

    /// The transaction that made the update.
    pub fn tx_number(&self) -> (r: i32)
        ensures
            r == self.txnum,
    {
        self.txnum
    }

    /// Serializes an integer-update record and appends it to the log,
    /// returning the new record's log sequence number.
    pub fn write_to_log(
        lm: &mut LogMgr,
        fm: &mut FileMgr,
        txnum: i32,
        blk: BlockId,
        offset: i32,
        val: i32,
    ) -> (r: Result<u64, LogError>)
        requires
            old(lm).wf(*old(fm)),
            old(lm).latest_lsn < u64::MAX,
        ensures
            final(fm).same_config(*old(fm)),
            r is Ok <==> encode_utf8(blk.filename@).len() + 32 <= old(fm).blocksize,
            r is Err ==> *final(lm) == *old(lm) && *final(fm) == *old(fm) && r->Err_0
                == LogError::RecordTooLarge,
            r is Ok ==> (final(lm).wf(*final(fm)) && r->Ok_0 == old(lm).latest_lsn + 1
                && final(lm).latest_lsn == old(lm).latest_lsn + 1 && final(lm).logfile@ == old(
                lm,
            ).logfile@ && final(lm).records(*final(fm)) == old(lm).records(*old(fm)).push(
                spec_set_int_record(txnum, blk.filename@, blk.blknum, offset, val),
            ) && final(fm).same_files_except(*old(fm), old(lm).logfile@)),
    {
        let fname_bytes: Vec<u8> = string_to_utf8(blk.filename());
        let flen: usize = fname_bytes.len();
        let bs: usize = fm.blocksize();
        if flen > bs {
            return Err(LogError::RecordTooLarge);
        }
        if flen + 32 > bs {
            return Err(LogError::RecordTooLarge);
        }
        let bpos: usize = 12 + flen;
        let opos: usize = bpos + 4;
        let vpos: usize = opos + 4;
        let reclen: usize = vpos + 4;
        let mut page = Page::new_from_size(reclen);
        let r1 = page.set_int(0, crate::logrecord::SETINT);
        let r2 = page.set_int(4, txnum);
        let r3 = page.set_bytes(8, &fname_bytes);
        let r4 = page.set_int(bpos, #[verifier::truncate] (blk.number() as i32));
        let r5 = page.set_int(opos, offset);
        let r6 = page.set_int(vpos, val);
        proof {
            assert(r1 is Ok && r2 is Ok && r3 is Ok && r4 is Ok && r5 is Ok && r6 is Ok);
            assert(page@ =~= spec_set_int_record(txnum, blk.filename@, blk.blknum, offset, val));
        }
        match lm.append(fm, page.contents()) {
            Ok(lsn) => Ok(lsn),
            Err(_) => {
                proof {
                    assert(false);
                }
                Err(LogError::RecordTooLarge)
            },
        }
    }
}

} // verus!
