//! One page of the buffer pool, paired with the identity of the disk
//! block loaded into it, a pin count, and the modification bookkeeping
//! that drives write-ahead logging.

use vstd::prelude::*;
use crate::blockid::BlockId;
use crate::filemanager::FileMgr;
use crate::logmanager::LogMgr;
use crate::page::Page;

verus! {

/// The log sequence number a buffer's `lsn` field stands for when handed
/// to the log: a negative field means "no record", which flushes
/// everything.
pub open spec fn lsn_of(lsn: i32) -> u64 {
    if lsn >= 0 {
        lsn as u64
    } else {
        u64::MAX
    }
}

/// One pool slot: a page, the block it mirrors, and its pin and
/// modification state.
pub struct Buffer {
    /// The block's bytes.
    pub contents: Page,
    /// The block loaded into the page, if any.
    pub blk: Option<BlockId>,
    /// How many times the page is currently pinned.
    pub pins: u64,
    /// The transaction that last modified the page, or -1 for none.
    pub txnum: i32,
    /// The log sequence number of the last modification's record, or -1.
    pub lsn: i32,
}

impl Buffer {
    /// Structural invariant relative to the managers: the page is one
    /// block long, a modified buffer is always assigned, and an assigned
    /// block is a data block — never the log file, whose blocks belong to
    /// the log manager alone — with an addressable number.
    pub open spec fn wf(self, fm: FileMgr, lm: LogMgr) -> bool {
        &&& self.contents@.len() == fm.blocksize
        &&& self.txnum >= 0 ==> self.blk is Some
        &&& self.blk is Some ==> self.blk->0.filename@ != lm.logfile@ && self.blk->0.blknum
            <= usize::MAX as u64
    }

    /// An empty, unassigned, unpinned buffer.
    pub fn new(fm: &FileMgr) -> (b: Buffer)
        ensures
            b.contents@ == Seq::new(fm.blocksize as nat, |i: int| 0u8),
            b.blk is None,
            b.pins == 0,
            b.txnum == -1,
            b.lsn == -1,
    {
        Buffer {
            contents: Page::new_from_size(fm.blocksize()),
            blk: None,
            pins: 0,
            txnum: -1,
            lsn: -1,
        }
    }

    /// The buffer's page, for the caller to read or modify; a caller
    /// that modifies it must record the modification with
    /// [`Buffer::set_modified`].
    pub fn contents(&mut self) -> (r: &mut Page)
        ensures
            *r == old(self).contents,
            final(self).contents == *final(r),
            final(self).blk == old(self).blk,
            final(self).pins == old(self).pins,
            final(self).txnum == old(self).txnum,
            final(self).lsn == old(self).lsn,
    {
        &mut self.contents
    }

    /// The block loaded into the buffer, if any.
    pub fn block(&self) -> (r: Option<&BlockId>)
        ensures
            r is Some <==> self.blk is Some,
            r is Some ==> *r->0 == self.blk->0,
    {
        self.blk.as_ref()
    }

    /// Records that `txnum` last modified the page; a negative `lsn`
    /// means the modification wrote no log record and keeps the previous
    /// one.
    pub fn set_modified(&mut self, txnum: i32, lsn: i32)
        requires
            old(self).blk is Some,
        ensures
            final(self).txnum == txnum,
            final(self).lsn == if lsn >= 0 {
                lsn
            } else {
                old(self).lsn
            },
            final(self).contents == old(self).contents,
            final(self).blk == old(self).blk,
            final(self).pins == old(self).pins,
    {
        self.txnum = txnum;
        if lsn >= 0 {
            self.lsn = lsn;
        }
    }

    /// Whether any caller currently pins the buffer.
    pub fn is_pinned(&self) -> (r: bool)
        ensures
            r == (self.pins > 0),
    {
        self.pins > 0
    }

    /// The transaction that last modified the page, or -1 for none.
    pub fn modifying_tx(&self) -> (r: i32)
        ensures
            r == self.txnum,
    {
        self.txnum
    }

    /// Takes one more pin on the buffer.
    pub fn pin(&mut self)
        requires
            old(self).pins < u64::MAX,
        ensures
            final(self).pins == old(self).pins + 1,
            final(self).contents == old(self).contents,
            final(self).blk == old(self).blk,
            final(self).txnum == old(self).txnum,
            final(self).lsn == old(self).lsn,
    {
        self.pins = self.pins + 1;
    }

    /// Releases one pin on the buffer.
    pub fn unpin(&mut self)
        requires
            old(self).pins > 0,
        ensures
            final(self).pins == old(self).pins - 1,
            final(self).contents == old(self).contents,
            final(self).blk == old(self).blk,
            final(self).txnum == old(self).txnum,
            final(self).lsn == old(self).lsn,
    {
        self.pins = self.pins - 1;
    }

    /// Makes the buffer's assigned disk block hold the same bytes as its
    /// page. The write-ahead rule is kept: the log is first brought up to
    /// the buffer's recorded log sequence number, and only then is the
    /// data block written — the journal shows the log write strictly
    /// before the data write.
    ///
    /// A modified buffer always holds a block (the precondition's
    /// invariant), so the broken state "modified but unassigned" cannot
    /// arise here; a caller outside the verifier that forges it gets no
    /// error surface, only the compiled fallthrough.
    pub fn flush(&mut self, fm: &mut FileMgr, lm: &mut LogMgr)
        requires
            old(self).wf(*old(fm), *old(lm)),
            old(lm).wf(*old(fm)),
        ensures
            final(self).wf(*final(fm), *final(lm)),
            final(lm).wf(*final(fm)),
            final(fm).same_config(*old(fm)),
            final(self).contents == old(self).contents,
            final(self).blk == old(self).blk,
            final(self).pins == old(self).pins,
            final(self).lsn == old(self).lsn,
            final(lm).logfile@ == old(lm).logfile@,
            final(lm).latest_lsn == old(lm).latest_lsn,
            final(lm).records(*final(fm)) == old(lm).records(*old(fm)),
            old(self).txnum < 0 ==> *final(self) == *old(self) && *final(fm) == *old(fm)
                && *final(lm) == *old(lm),
            old(self).txnum >= 0 ==> {
                let b = old(self).blk->0;
                let flushed_log = lsn_of(old(self).lsn) > old(lm).lastsaved_lsn;
                let n0 = old(fm).ops@.len() as int;
                &&& final(self).txnum == -1
                &&& final(lm).lastsaved_lsn == if flushed_log {
                    old(lm).latest_lsn
                } else {
                    old(lm).lastsaved_lsn
                }
                &&& lsn_of(old(self).lsn) <= old(lm).latest_lsn ==> final(lm).lastsaved_lsn
                    >= lsn_of(old(self).lsn)
                &&& final(fm).blocks_of(b.filename@) == crate::filemanager::grow_update(
                    old(fm).blocks_of(b.filename@),
                    b.blknum as int,
                    old(self).contents@,
                    old(fm).blocksize as int,
                )
                &&& forall|n: Seq<char>|
                    n != b.filename@ && n != old(lm).logfile@ ==> #[trigger] final(fm).blocks_of(
                        n,
                    ) == old(fm).blocks_of(n)
                &&& final(fm).ops@.len() == n0 + if flushed_log {
                    2int
                } else {
                    1int
                }
                &&& final(fm).ops@.take(n0) == old(fm).ops@
                &&& final(fm).ops@.last().filename@ == b.filename@
                &&& final(fm).ops@.last().blknum == b.blknum
                &&& final(fm).ops@.last().bytes@ == old(self).contents@
                &&& flushed_log ==> final(fm).ops@[n0].filename@ == old(lm).logfile@
                    && final(fm).ops@[n0].bytes@ == old(lm).logpage@
            },
    {
        if self.txnum >= 0 {
            let l: u64 = if self.lsn >= 0 {
                self.lsn as u64
            } else {
                u64::MAX
            };
            lm.flush_from_lsn(fm, l);
            let ghost fm1 = *fm;
            match &self.blk {
                Some(b) => {
                    fm.write(b, &self.contents);
                },
                None => {
                    proof {
                        assert(false);
                    }
                },
            }
            self.txnum = -1;
            proof {
                assert(fm.blocks_of(lm.logfile@) == fm1.blocks_of(lm.logfile@));
                assert(fm.ops@.take(old(fm).ops@.len() as int) =~= old(fm).ops@);
            }
        }
    }

    /// Associates the buffer with `b`: flushes the currently assigned
    /// block if it carries unsaved modifications, then reads `b`'s bytes
    /// into the page. The pin count restarts at zero; the caller pins the
    /// buffer afterwards.
    pub fn assign_to_block(&mut self, fm: &mut FileMgr, lm: &mut LogMgr, b: BlockId)
        requires
            old(self).wf(*old(fm), *old(lm)),
            old(lm).wf(*old(fm)),
            b.filename@ != old(lm).logfile@,
            b.blknum <= usize::MAX as u64,
        ensures
            final(self).wf(*final(fm), *final(lm)),
            final(lm).wf(*final(fm)),
            final(fm).same_config(*old(fm)),
            final(lm).logfile@ == old(lm).logfile@,
            final(lm).latest_lsn == old(lm).latest_lsn,
            final(lm).records(*final(fm)) == old(lm).records(*old(fm)),
            final(self).blk == Some(b),
            final(self).pins == 0,
            final(self).txnum < 0,
            final(self).contents@ == final(fm).block_at(b.filename@, b.blknum as int),
            old(fm).ops@.is_prefix_of(final(fm).ops@),
            old(self).txnum < 0 ==> *final(fm) == *old(fm) && *final(lm) == *old(lm),
            old(self).txnum >= 0 ==> {
                let bv = old(self).blk->0;
                let flushed_log = lsn_of(old(self).lsn) > old(lm).lastsaved_lsn;
                let n0 = old(fm).ops@.len() as int;
                &&& final(fm).blocks_of(bv.filename@) == crate::filemanager::grow_update(
                    old(fm).blocks_of(bv.filename@),
                    bv.blknum as int,
                    old(self).contents@,
                    old(fm).blocksize as int,
                )
                &&& (lsn_of(old(self).lsn) <= old(lm).latest_lsn ==> final(lm).lastsaved_lsn
                    >= lsn_of(old(self).lsn))
                &&& final(fm).ops@.len() == n0 + if flushed_log {
                    2int
                } else {
                    1int
                }
                &&& final(fm).ops@.take(n0) == old(fm).ops@
                &&& final(fm).ops@.last().filename@ == bv.filename@
                &&& final(fm).ops@.last().blknum == bv.blknum
                &&& final(fm).ops@.last().bytes@ == old(self).contents@
                &&& (flushed_log ==> final(fm).ops@[n0].filename@ == old(lm).logfile@
                    && final(fm).ops@[n0].bytes@ == old(lm).logpage@)
            },
    {
        self.flush(fm, lm);
        fm.read(&b, &mut self.contents);
        self.blk = Some(b);
        self.pins = 0;
        proof {
            assert(fm.ops@.take(old(fm).ops@.len() as int) =~= old(fm).ops@);
            assert(old(fm).ops@.is_prefix_of(fm.ops@));
        }
    }
}

} // verus!

