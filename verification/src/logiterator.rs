//! Iteration over the log's records in reverse chronological order.
//!
//! The iterator starts at the tail block's boundary and walks forward
//! through that block's records (newest first); when a block is
//! exhausted it moves to the block below and continues, ending after the
//! earliest record of block 0.

use vstd::prelude::*;
use crate::blockid::BlockId;
use crate::filemanager::{lemma_blocks_of_props, FileMgr};
use crate::logmanager::{
    block_scan, boundary_of, lemma_scan_at_end, lemma_scan_down_len, lemma_scan_nonempty, rec_at,
    rec_end, scan_down, scan_from, wf_from, wf_log_block,
};
use crate::page::Page;

verus! {

/// A finite, forward-only walk over the log's records, newest first.
pub struct LogIterator {
    /// The block the cursor stands in.
    pub blk: BlockId,
    /// In-memory copy of that block.
    pub p: Page,
    /// Offset of the next record within the block.
    pub currentpos: usize,
    /// The block's boundary.
    pub boundary: usize,
}

impl LogIterator {
    /// Structural invariant, tied to the file manager holding the log:
    /// the cursor's block is loaded, every block at or below the cursor
    /// parses, and the cursor stands on a record start (or the block's
    /// end).
    pub open spec fn wf(self, fm: FileMgr) -> bool {
        let lf = fm.blocks_of(self.blk.filename@);
        &&& fm.wf()
        &&& 8 <= fm.blocksize
        &&& self.blk.blknum < lf.len()
        &&& self.p@ == lf[self.blk.blknum as int]
        &&& self.p@.len() == fm.blocksize
        &&& forall|j: int| 0 <= j <= self.blk.blknum ==> wf_log_block(#[trigger] lf[j])
        &&& forall|j: int| 0 <= j < self.blk.blknum ==> block_scan(#[trigger] lf[j]).len() >= 1
        &&& self.boundary == boundary_of(self.p@)
        &&& self.boundary <= self.currentpos <= fm.blocksize
        &&& wf_from(self.p@, self.currentpos as int)
    }

    /// The records the iterator has yet to produce, in the order it will
    /// produce them: newest first.
    pub open spec fn remaining(self, fm: FileMgr) -> Seq<Seq<u8>> {
        scan_from(self.p@, self.currentpos as int) + scan_down(
            fm.blocks_of(self.blk.filename@),
            self.blk.blknum - 1,
        )
    }

    /// Starts a walk at block `blk` of the log, whose blocks up to `blk`
    /// must all parse as log blocks.
    pub fn new(fm: &FileMgr, blk: BlockId) -> (it: LogIterator)
        requires
            fm.wf(),
            8 <= fm.blocksize,
            blk.blknum < fm.blocks_of(blk.filename@).len(),
            forall|j: int|
                0 <= j <= blk.blknum ==> wf_log_block(#[trigger] fm.blocks_of(blk.filename@)[j]),
            forall|j: int|
                0 <= j < blk.blknum ==> block_scan(#[trigger] fm.blocks_of(blk.filename@)[j]).len()
                    >= 1,
        ensures
            it.wf(*fm),
            it.blk.filename@ == blk.filename@,
            it.blk.blknum == blk.blknum,
            it.remaining(*fm) == scan_down(fm.blocks_of(blk.filename@), blk.blknum as int),
    {
        let mut p = Page::new_from_size(fm.blocksize());
        fm.read(&blk, &mut p);
        proof {
            lemma_blocks_of_props(*fm, blk.filename@);
        }
        let boundary: usize = match p.get_int(0) {
            Ok(v) => v as usize,
            Err(_) => {
                proof {
                    assert(false);
                }
                0
            },
        };
        let it = LogIterator { blk, p, currentpos: boundary, boundary };
        proof {
            let lf = fm.blocks_of(it.blk.filename@);
            assert(it.remaining(*fm) =~= scan_down(lf, it.blk.blknum as int));
        }
        it
    }

    /// Whether another record is left: the cursor has not reached the
    /// block's end, or a block below is left to walk.
    pub fn has_next(&self, fm: &FileMgr) -> (r: bool)
        requires
            self.wf(*fm),
        ensures
            r == (self.remaining(*fm).len() > 0),
    {
        let r = self.currentpos < fm.blocksize() || self.blk.number() > 0;
        proof {
            let lf = fm.blocks_of(self.blk.filename@);
            if self.currentpos < fm.blocksize {
                lemma_scan_nonempty(self.p@, self.currentpos as int);
            } else {
                lemma_scan_at_end(self.p@, self.currentpos as int);
                if self.blk.blknum > 0 {
                    lemma_scan_down_len(lf, self.blk.blknum - 1);
                }
            }
        }
        r
    }

    /// Produces the next record, or nothing once the walk is done.
    pub fn next(&mut self, fm: &FileMgr) -> (r: Option<Vec<u8>>)
        requires
            old(self).wf(*fm),
        ensures
            final(self).wf(*fm),
            final(self).blk.filename@ == old(self).blk.filename@,
            old(self).remaining(*fm).len() == 0 ==> r is None && *final(self) == *old(self),
            old(self).remaining(*fm).len() > 0 ==> r is Some && r->0@ == old(self).remaining(
                *fm,
            )[0] && final(self).remaining(*fm) == old(self).remaining(*fm).drop_first(),
    {
        if !self.has_next(fm) {
            return None;
        }
        if self.currentpos == fm.blocksize() {
            proof {
                lemma_scan_at_end(self.p@, self.currentpos as int);
                let lf = fm.blocks_of(self.blk.filename@);
                if self.blk.blknum == 0 {
                    assert(self.remaining(*fm).len() == 0);
                }
            }
            let newblk = BlockId::new(self.blk.filename(), self.blk.number() - 1);
            fm.read(&newblk, &mut self.p);
            self.blk = newblk;
            let b: usize = match self.p.get_int(0) {
                Ok(v) => v as usize,
                Err(_) => {
                    proof {
                        assert(false);
                    }
                    0
                },
            };
            self.boundary = b;
            self.currentpos = b;
            proof {
                let lf = fm.blocks_of(self.blk.filename@);
                assert(self.remaining(*fm) =~= old(self).remaining(*fm));
            }
        }
        let ghost mid = *self;
        proof {
            lemma_scan_nonempty(self.p@, self.currentpos as int);
        }
        let rec: Vec<u8> = match self.p.get_bytes(self.currentpos) {
            Ok(v) => v,
            Err(_) => {
                proof {
                    assert(false);
                }
                return None;
            },
        };
        self.currentpos = self.currentpos + 4 + rec.len();
        proof {
            assert(rec@ == rec_at(mid.p@, mid.currentpos as int));
            assert(self.currentpos as int == rec_end(mid.p@, mid.currentpos as int));
            assert(scan_from(mid.p@, mid.currentpos as int) == seq![rec@] + scan_from(
                self.p@,
                self.currentpos as int,
            ));
            assert(self.remaining(*fm) =~= mid.remaining(*fm).drop_first());
            assert(mid.remaining(*fm) == old(self).remaining(*fm));
            assert(mid.remaining(*fm)[0] == rec@);
        }
        Some(rec)
    }
}

} // verus!
