//! The write-ahead log: an append-only sequence of variable-length byte
//! records over the file manager's blocks.
//!
//! Log blocks fill back to front. Offset 0 of every log block holds the
//! *boundary*: the offset of the earliest record still in the block; the
//! records are packed from the boundary to the block's end, newest first.
//! Appends go to an in-memory tail page; a record is durable only once the
//! tail page has been flushed with the record in it, which
//! [`LogMgr::flush_from_lsn`] guarantees for a given log sequence number.

use vstd::prelude::*;
use crate::blockid::BlockId;
use crate::filemanager::{lemma_blocks_of_props, FileMgr};
use crate::page::{int_at, spec_i32_to_be, Page};

verus! {

/// Failure of a log operation.
#[derive(Debug, Clone, Copy, PartialEq, Eq, Structural)]
pub enum LogError {
    /// An existing log file does not parse as back-to-front record blocks.
    CorruptLog,
    /// A record does not fit a log block even when the block is empty.
    RecordTooLarge,
}

/// Whether a length-prefixed record can be read at `pos` without leaving
/// the buffer.
pub open spec fn valid_rec_at(s: Seq<u8>, pos: int) -> bool {
    pos + 4 <= s.len() && int_at(s, pos) >= 0 && pos + 4 + int_at(s, pos) <= s.len()
}

/// The bytes of the record stored at `pos`.
pub open spec fn rec_at(s: Seq<u8>, pos: int) -> Seq<u8> {
    s.subrange(pos + 4, pos + 4 + int_at(s, pos))
}

/// The offset just past the record at `pos`.
pub open spec fn rec_end(s: Seq<u8>, pos: int) -> int {
    pos + 4 + int_at(s, pos)
}

/// Records packed from `pos` reach the end of the buffer exactly.
pub open spec fn wf_from(s: Seq<u8>, pos: int) -> bool
    decreases s.len() - pos,
{
    pos == s.len() || (valid_rec_at(s, pos) && wf_from(s, rec_end(s, pos)))
}

/// The records stored from `pos` on, in the order they stand in the
/// buffer: newest first.
pub open spec fn scan_from(s: Seq<u8>, pos: int) -> Seq<Seq<u8>>
    decreases s.len() - pos,
{
    if valid_rec_at(s, pos) {
        seq![rec_at(s, pos)] + scan_from(s, rec_end(s, pos))
    } else {
        Seq::empty()
    }
}

/// The boundary of a log block: the offset of its earliest live record.
pub open spec fn boundary_of(s: Seq<u8>) -> int {
    int_at(s, 0) as int
}

/// A well-formed log block: it holds its boundary, and records are packed
/// from the boundary to the block's end.
pub open spec fn wf_log_block(s: Seq<u8>) -> bool {
    s.len() >= 4 && 4 <= boundary_of(s) <= s.len() && wf_from(s, boundary_of(s))
}

/// The records of one log block, newest first.
pub open spec fn block_scan(s: Seq<u8>) -> Seq<Seq<u8>> {
    scan_from(s, boundary_of(s))
}

/// The records of blocks `j`, `j - 1`, ..., `0`, newest first.
pub open spec fn scan_down(blocks: Seq<Seq<u8>>, j: int) -> Seq<Seq<u8>>
    decreases j + 1,
{
    if j < 0 {
        Seq::empty()
    } else {
        block_scan(blocks[j]) + scan_down(blocks, j - 1)
    }
}

/// Two buffers that agree from `pos` on hold the same records there.
pub proof fn lemma_scan_frame(s1: Seq<u8>, s2: Seq<u8>, pos: int)
    requires
        s1.len() == s2.len(),
        0 <= pos,
        forall|t: int| pos <= t < s1.len() ==> s1[t] == s2[t],
    ensures
        wf_from(s1, pos) == wf_from(s2, pos),
        scan_from(s1, pos) == scan_from(s2, pos),
    decreases s1.len() - pos,
{
    if pos + 4 <= s1.len() {
        assert(s1.subrange(pos, pos + 4) =~= s2.subrange(pos, pos + 4));
        assert(int_at(s1, pos) == int_at(s2, pos));
        if valid_rec_at(s1, pos) {
            assert(s1.subrange(pos + 4, rec_end(s1, pos)) =~= s2.subrange(
                pos + 4,
                rec_end(s2, pos),
            ));
            lemma_scan_frame(s1, s2, rec_end(s1, pos));
        }
    }
}

/// Writing a record immediately below the old boundary, then lowering the
/// boundary onto it, prepends the record to the block's scan.
pub proof fn lemma_scan_prepend(s_old: Seq<u8>, s_new: Seq<u8>, recpos: int, rec: Seq<u8>)
    requires
        s_old.len() == s_new.len(),
        wf_log_block(s_old),
        rec.len() <= i32::MAX,
        4 <= recpos,
        recpos + 4 + rec.len() == boundary_of(s_old),
        s_new.subrange(0, 4) == spec_i32_to_be(recpos as i32),
        s_new.subrange(recpos, recpos + 4) == spec_i32_to_be(rec.len() as i32),
        s_new.subrange(recpos + 4, boundary_of(s_old)) == rec,
        forall|t: int| boundary_of(s_old) <= t < s_old.len() ==> s_new[t] == s_old[t],
    ensures
        wf_log_block(s_new),
        boundary_of(s_new) == recpos,
        block_scan(s_new) == seq![rec] + block_scan(s_old),
{
    let bd = boundary_of(s_old);
    crate::page::lemma_i32_be_round_trip(recpos as i32);
    assert(int_at(s_new, 0) == recpos as i32);
    crate::page::lemma_i32_be_round_trip(rec.len() as i32);
    assert(int_at(s_new, recpos) == rec.len() as i32);
    assert(valid_rec_at(s_new, recpos));
    assert(rec_at(s_new, recpos) == rec);
    assert(rec_end(s_new, recpos) == bd);
    lemma_scan_frame(s_old, s_new, bd);
    assert(scan_from(s_new, recpos) =~= seq![rec] + scan_from(s_new, bd));
}

/// A well-formed region that does not start at the buffer's end holds at
/// least one record.
pub proof fn lemma_scan_nonempty(s: Seq<u8>, pos: int)
    requires
        wf_from(s, pos),
        pos < s.len(),
    ensures
        scan_from(s, pos).len() >= 1,
        valid_rec_at(s, pos),
{
}

/// An empty region scans to no records.
pub proof fn lemma_scan_at_end(s: Seq<u8>, pos: int)
    requires
        pos + 4 > s.len(),
    ensures
        scan_from(s, pos) == Seq::<Seq<u8>>::empty(),
{
}

/// Stacked blocks whose scans each hold at least one record yield at
/// least one record per block.
pub proof fn lemma_scan_down_len(blocks: Seq<Seq<u8>>, j: int)
    requires
        forall|t: int| 0 <= t <= j ==> block_scan(#[trigger] blocks[t]).len() >= 1,
        j < blocks.len(),
    ensures
        j >= 0 ==> scan_down(blocks, j).len() >= j + 1,
    decreases j + 1,
{
    if j >= 0 {
        lemma_scan_down_len(blocks, j - 1);
    }
}

/// Blocks that agree position by position stack to the same records.
pub proof fn lemma_scan_down_frame(b1: Seq<Seq<u8>>, b2: Seq<Seq<u8>>, j: int)
    requires
        forall|t: int| 0 <= t <= j ==> b1[t] == b2[t],
    ensures
        scan_down(b1, j) == scan_down(b2, j),
    decreases j + 1,
{
    if j >= 0 {
        lemma_scan_down_frame(b1, b2, j - 1);
    }
}

/// Reversing a sequence with a new first element puts that element last.
pub proof fn lemma_reverse_prepend(x: Seq<u8>, v: Seq<Seq<u8>>)
    ensures
        (seq![x] + v).reverse() == v.reverse().push(x),
{
    assert((seq![x] + v).reverse() =~= v.reverse().push(x));
}

/// An append-only, backward-growing log over the file manager's blocks.
///
/// `latest_lsn` counts the records appended in this run; `lastsaved_lsn`
/// tells how many of them have reached disk. A record's log sequence
/// number is durable exactly once it is at most `lastsaved_lsn`.
pub struct LogMgr {
    /// Name of the log file.
    pub logfile: String,
    /// In-memory copy of the tail log block.
    pub logpage: Page,
    /// Index of the tail log block within the log file.
    pub currentblk: u64,
    /// Sequence number of the newest record appended in this run.
    pub latest_lsn: u64,
    /// Sequence number of the newest record known to be on disk.
    pub lastsaved_lsn: u64,
}

impl LogMgr {
    /// Structural invariant, tied to the file manager holding the log
    /// file: all log blocks parse, every block below the tail holds at
    /// least one record, and the disk copy of the tail block holds
    /// exactly the tail page's records except the newest unsaved ones.
    pub open spec fn wf(self, fm: FileMgr) -> bool {
        let lf = fm.blocks_of(self.logfile@);
        &&& fm.wf()
        &&& 8 <= fm.blocksize
        &&& self.logpage@.len() == fm.blocksize
        &&& wf_log_block(self.logpage@)
        &&& lf.len() == self.currentblk + 1
        &&& forall|j: int|
            0 <= j < self.currentblk ==> wf_log_block(#[trigger] lf[j]) && block_scan(
                lf[j],
            ).len() >= 1
        &&& wf_log_block(lf[self.currentblk as int])
        &&& self.lastsaved_lsn <= self.latest_lsn
        &&& self.latest_lsn - self.lastsaved_lsn <= block_scan(self.logpage@).len()
        &&& block_scan(lf[self.currentblk as int]) == block_scan(self.logpage@).skip(
            self.latest_lsn - self.lastsaved_lsn,
        )
    }

    /// All records of the log, newest first, the unsaved tail-page
    /// records included.
    pub open spec fn log_view(self, fm: FileMgr) -> Seq<Seq<u8>> {
        block_scan(self.logpage@) + scan_down(
            fm.blocks_of(self.logfile@),
            self.currentblk - 1,
        )
    }

    /// All records of the log in the order they were appended.
    pub open spec fn records(self, fm: FileMgr) -> Seq<Seq<u8>> {
        self.log_view(fm).reverse()
    }

    /// The records that have reached disk, newest first.
    pub open spec fn durable_view(self, fm: FileMgr) -> Seq<Seq<u8>> {
        scan_down(fm.blocks_of(self.logfile@), self.currentblk as int)
    }

    /// The number of tail-page records not yet on disk.
    pub open spec fn unsaved(self) -> int {
        self.latest_lsn - self.lastsaved_lsn
    }

    /// Opens the log called `logfile`. An empty or missing log file gets
    /// one fresh block; an existing one is taken over after checking that
    /// all of its blocks parse, the tail block loaded as the tail page.
    /// Log sequence numbers restart at zero for each run.
    pub fn new(fm: &mut FileMgr, logfile: String) -> (r: Result<LogMgr, LogError>)
        requires
            old(fm).wf(),
            8 <= old(fm).blocksize,
        ensures
            final(fm).same_config(*old(fm)),
            r is Err ==> *final(fm) == *old(fm) && r->Err_0 == LogError::CorruptLog,
            r is Ok <==> old(fm).blocks_of(logfile@).len() == 0 || spec_valid_log(
                *old(fm),
                logfile@,
            ),
            r is Ok ==> (r->Ok_0.wf(*final(fm)) && r->Ok_0.logfile@ == logfile@ && r->Ok_0.latest_lsn
                == 0 && r->Ok_0.lastsaved_lsn == 0 && final(fm).same_files_except(*old(fm), logfile@)),
            r is Ok && old(fm).blocks_of(logfile@).len() == 0 ==> r->Ok_0.records(*final(fm))
                == Seq::<Seq<u8>>::empty(),
            r is Ok && old(fm).blocks_of(logfile@).len() > 0 ==> *final(fm) == *old(fm)
                && r->Ok_0.records(*final(fm)) == scan_down(
                old(fm).blocks_of(logfile@),
                old(fm).blocks_of(logfile@).len() - 1,
            ).reverse(),
    {
        let blocksize: usize = fm.blocksize();
        let logsize: u64 = fm.length(logfile.as_str());
        if logsize == 0 {
            let blk = fm.append(logfile.as_str());
            let mut logpage = Page::new_from_size(blocksize);
            match logpage.set_int(0, blocksize as i32) {
                Ok(_) => {},
                Err(_) => {
                    proof {
                        assert(false);
                    }
                    return Err(LogError::CorruptLog);
                },
            }
            fm.write(&blk, &logpage);
            let lm = LogMgr {
                logfile,
                logpage,
                currentblk: 0,
                latest_lsn: 0,
                lastsaved_lsn: 0,
            };
            proof {
                let lf = fm.blocks_of(lm.logfile@);
                crate::page::lemma_i32_be_round_trip(blocksize as i32);
                assert(lm.logpage@.subrange(0, 4) =~= spec_i32_to_be(blocksize as i32));
                assert(boundary_of(lm.logpage@) == blocksize);
                assert(wf_from(lm.logpage@, blocksize as int));
                assert(lf =~= seq![lm.logpage@]);
                lemma_scan_at_end(lm.logpage@, blocksize as int);
                assert(block_scan(lf[0]) =~= block_scan(lm.logpage@).skip(0));
                assert(lm.log_view(*fm) =~= Seq::<Seq<u8>>::empty());
                assert(lm.records(*fm) =~= Seq::<Seq<u8>>::empty());
            }
            Ok(lm)
        } else {
            let ghost lf = fm.blocks_of(logfile@);
            proof {
                lemma_blocks_of_props(*fm, logfile@);
            }
            let mut j: u64 = 0;
            let mut page = Page::new_from_size(blocksize);
            while j < logsize
                invariant
                    fm.wf(),
                    8 <= fm.blocksize == blocksize,
                    j <= logsize,
                    logsize == lf.len(),
                    lf == fm.blocks_of(logfile@),
                    lf.len() <= usize::MAX,
                    forall|t: int| 0 <= t < lf.len() ==> #[trigger] lf[t].len() == blocksize,
                    forall|t: int| 0 <= t < j ==> wf_log_block(#[trigger] lf[t]),
                    forall|t: int| 0 <= t < j && t < logsize - 1 ==> block_scan(#[trigger] lf[t]).len() >= 1,
                    j > 0 ==> page@ == lf[j - 1],
                    page@.len() == blocksize,
                decreases logsize - j,
            {
                let blk = BlockId::new(logfile.as_str(), j);
                fm.read(&blk, &mut page);
                if !check_log_block(&page) {
                    return Err(LogError::CorruptLog);
                }
                if j + 1 < logsize {
                    let b: i32 = match page.get_int(0) {
                        Ok(v) => v,
                        Err(_) => {
                            proof {
                                assert(false);
                            }
                            return Err(LogError::CorruptLog);
                        },
                    };
                    if b as usize >= blocksize {
                        proof {
                            lemma_scan_at_end(page@, boundary_of(page@));
                        }
                        return Err(LogError::CorruptLog);
                    }
                    proof {
                        lemma_scan_nonempty(page@, boundary_of(page@));
                    }
                } else {
                    proof {
                        if boundary_of(page@) < blocksize {
                            lemma_scan_nonempty(page@, boundary_of(page@));
                        }
                    }
                }
                j = j + 1;
            }
            let currentblk: u64 = logsize - 1;
            let lm = LogMgr {
                logfile,
                logpage: page,
                currentblk,
                latest_lsn: 0,
                lastsaved_lsn: 0,
            };
            proof {
                assert(block_scan(lf[currentblk as int]) =~= block_scan(lm.logpage@).skip(0));
                assert(lm.log_view(*fm) =~= scan_down(lf, lf.len() - 1));
            }
            Ok(lm)
        }
    }

    /// Writes the tail page to its disk block, making every record
    /// appended so far durable.
    fn flush(&mut self, fm: &mut FileMgr)
        requires
            old(self).wf(*old(fm)),
        ensures
            final(self).wf(*final(fm)),
            final(fm).same_config(*old(fm)),
            final(fm).same_files_except(*old(fm), old(self).logfile@),
            final(self).logfile@ == old(self).logfile@,
            final(self).logpage == old(self).logpage,
            final(self).currentblk == old(self).currentblk,
            final(self).latest_lsn == old(self).latest_lsn,
            final(self).lastsaved_lsn == old(self).latest_lsn,
            final(self).records(*final(fm)) == old(self).records(*old(fm)),
            final(fm).blocks_of(final(self).logfile@) == old(fm).blocks_of(final(self).logfile@).update(
                final(self).currentblk as int,
                final(self).logpage@,
            ),
            final(fm).ops@.len() == old(fm).ops@.len() + 1,
            final(fm).ops@.take(old(fm).ops@.len() as int) == old(fm).ops@,
            final(fm).ops@.last().filename@ == final(self).logfile@,
            final(fm).ops@.last().blknum == final(self).currentblk,
            final(fm).ops@.last().bytes@ == final(self).logpage@,
    {
        proof {
            lemma_blocks_of_props(*fm, self.logfile@);
        }
        let blk = BlockId::new(self.logfile.as_str(), self.currentblk);
        fm.write(&blk, &self.logpage);
        self.lastsaved_lsn = self.latest_lsn;
        proof {
            let lf0 = old(fm).blocks_of(self.logfile@);
            let lf1 = fm.blocks_of(self.logfile@);
            assert(lf1 == lf0.update(self.currentblk as int, self.logpage@));
            assert(block_scan(lf1[self.currentblk as int]) =~= block_scan(self.logpage@).skip(0));
            lemma_scan_down_frame(lf1, lf0, self.currentblk - 1);
            assert(self.records(*fm) == old(self).records(*old(fm)));
        }
    }

    /// Starts a fresh tail block: writes a new zero block at the end of
    /// the log file and re-points the tail page at it, with the boundary
    /// at the block's end.
    fn append_newblk(&mut self, fm: &mut FileMgr)
        requires
            old(self).wf(*old(fm)),
            old(self).lastsaved_lsn == old(self).latest_lsn,
            block_scan(old(self).logpage@).len() >= 1,
        ensures
            final(self).wf(*final(fm)),
            final(fm).same_config(*old(fm)),
            final(fm).same_files_except(*old(fm), old(self).logfile@),
            final(self).logfile@ == old(self).logfile@,
            final(self).currentblk == old(self).currentblk + 1,
            final(self).latest_lsn == old(self).latest_lsn,
            final(self).lastsaved_lsn == old(self).lastsaved_lsn,
            final(self).logpage@.len() == final(fm).blocksize,
            boundary_of(final(self).logpage@) == final(fm).blocksize,
            block_scan(final(self).logpage@) == Seq::<Seq<u8>>::empty(),
            final(self).records(*final(fm)) == old(self).records(*old(fm)),
            final(fm).ops@.len() == old(fm).ops@.len() + 2,
            final(fm).ops@.take(old(fm).ops@.len() as int) == old(fm).ops@,
            final(fm).ops@[old(fm).ops@.len() as int].filename@ == old(self).logfile@,
            final(fm).ops@[old(fm).ops@.len() as int].blknum == old(self).currentblk + 1,
            final(fm).ops@[old(fm).ops@.len() as int + 1].filename@ == old(self).logfile@,
            final(fm).ops@[old(fm).ops@.len() as int + 1].blknum == old(self).currentblk + 1,
            final(fm).ops@[old(fm).ops@.len() as int + 1].bytes@ == final(self).logpage@,
    {
        proof {
            lemma_blocks_of_props(*fm, self.logfile@);
        }
        let blk = fm.append(self.logfile.as_str());
        let ghost fm1 = *fm;
        match self.logpage.set_int(0, fm.blocksize() as i32) {
            Ok(_) => {},
            Err(_) => {
                proof {
                    assert(false);
                }
            },
        }
        fm.write(&blk, &self.logpage);
        self.currentblk = self.currentblk + 1;
        proof {
            let name = self.logfile@;
            let lf0 = old(fm).blocks_of(name);
            let lf2 = fm.blocks_of(name);
            crate::page::lemma_i32_be_round_trip(fm.blocksize as i32);
            assert(self.logpage@.subrange(0, 4) =~= spec_i32_to_be(fm.blocksize as i32));
            assert(boundary_of(self.logpage@) == fm.blocksize);
            lemma_scan_at_end(self.logpage@, fm.blocksize as int);
            assert(wf_from(self.logpage@, fm.blocksize as int));
            assert(lf2 =~= lf0.push(self.logpage@));
            assert(block_scan(lf2[self.currentblk as int]) =~= block_scan(self.logpage@).skip(0));
            // the old tail block keeps its bytes and its scan
            assert(lf2[old(self).currentblk as int] == lf0[old(self).currentblk as int]);
            lemma_scan_down_frame(lf2, lf0, self.currentblk - 2);
            assert(scan_down(lf2, self.currentblk - 1) =~= block_scan(
                lf2[old(self).currentblk as int],
            ) + scan_down(lf2, self.currentblk - 2));
            assert(block_scan(lf0[old(self).currentblk as int]) == block_scan(
                old(self).logpage@,
            ).skip(0));
            assert(block_scan(old(self).logpage@).skip(0) =~= block_scan(old(self).logpage@));
            assert(self.log_view(*fm) =~= old(self).log_view(*old(fm)));
            assert(fm.ops@.take(old(fm).ops@.len() as int) =~= old(fm).ops@);
            let n0 = old(fm).ops@.len() as int;
            assert(fm.ops@.take(fm1.ops@.len() as int) == fm1.ops@);
            assert(fm.ops@[n0] == fm1.ops@[n0]);
            assert(fm1.ops@[n0] == fm1.ops@.last());
        }
    }

    /// Appends one record to the log and returns its log sequence number,
    /// starting a fresh tail block first if the record does not fit the
    /// current one. The record is *not* durable yet when this returns.
    #[verifier::rlimit(60)]
    pub fn append(&mut self, fm: &mut FileMgr, logrec: &Vec<u8>) -> (r: Result<u64, LogError>)
        requires
            old(self).wf(*old(fm)),
            old(self).latest_lsn < u64::MAX,
        ensures
            final(fm).same_config(*old(fm)),
            r is Err ==> *final(self) == *old(self) && *final(fm) == *old(fm) && r->Err_0
                == LogError::RecordTooLarge,
            r is Ok <==> logrec@.len() + 8 <= old(fm).blocksize,
            r is Ok ==> (final(self).wf(*final(fm)) && r->Ok_0 == old(self).latest_lsn + 1 && final(self).latest_lsn
                == old(self).latest_lsn + 1 && final(self).lastsaved_lsn >= old(self).lastsaved_lsn
                && final(self).logfile@ == old(self).logfile@ && final(self).records(*final(fm)) == old(self).records(
                *old(fm),
            ).push(logrec@) && final(fm).same_files_except(*old(fm), old(self).logfile@)),
            r is Ok && boundary_of(old(self).logpage@) >= logrec@.len() + 8
                ==> final(self).currentblk == old(self).currentblk && final(self).lastsaved_lsn
                == old(self).lastsaved_lsn && *final(fm) == *old(fm),
            r is Ok && boundary_of(old(self).logpage@) < logrec@.len() + 8 ==> {
                let n0 = old(fm).ops@.len() as int;
                &&& final(self).currentblk == old(self).currentblk + 1
                &&& final(self).lastsaved_lsn == old(self).latest_lsn
                &&& final(fm).ops@.len() == n0 + 3
                &&& final(fm).ops@.take(n0) == old(fm).ops@
                &&& final(fm).ops@[n0].filename@ == old(self).logfile@
                &&& final(fm).ops@[n0].blknum == old(self).currentblk
                &&& final(fm).ops@[n0].bytes@ == old(self).logpage@
                &&& final(fm).ops@[n0 + 1].filename@ == old(self).logfile@
                &&& final(fm).ops@[n0 + 1].blknum == old(self).currentblk + 1
                &&& final(fm).ops@[n0 + 2].filename@ == old(self).logfile@
                &&& final(fm).ops@[n0 + 2].blknum == old(self).currentblk + 1
            },
    {
        let blocksize: usize = fm.blocksize();
        if logrec.len() > blocksize - 8 {
            return Err(LogError::RecordTooLarge);
        }
        let boundary0: usize = match self.logpage.get_int(0) {
            Ok(v) => v as usize,
            Err(_) => {
                proof {
                    assert(false);
                }
                return Err(LogError::RecordTooLarge);
            },
        };
        let recsize: usize = logrec.len();
        let bytesneeded: usize = recsize + 4;
        let boundary: usize = if boundary0 < bytesneeded + 4 {
            self.flush(fm);
            let ghost fmf = *fm;
            proof {
                lemma_scan_nonempty(self.logpage@, boundary_of(self.logpage@));
            }
            self.append_newblk(fm);
            proof {
                let n0 = old(fm).ops@.len() as int;
                assert(fm.ops@.take(fmf.ops@.len() as int) == fmf.ops@);
                assert(fm.ops@[n0] == fmf.ops@[n0]);
                assert(fmf.ops@[n0] == fmf.ops@.last());
                assert(fm.ops@.take(n0) =~= old(fm).ops@);
            }
            blocksize
        } else {
            boundary0
        };
        let ghost pre = *self;
        let ghost prefm = *fm;
        let recpos: usize = boundary - bytesneeded;
        match self.logpage.set_bytes(recpos, logrec) {
            Ok(_) => {},
            Err(_) => {
                proof {
                    assert(false);
                }
                return Err(LogError::RecordTooLarge);
            },
        }
        let ghost mid_page = self.logpage@;
        match self.logpage.set_int(0, recpos as i32) {
            Ok(_) => {},
            Err(_) => {
                proof {
                    assert(false);
                }
                return Err(LogError::RecordTooLarge);
            },
        }
        self.latest_lsn = self.latest_lsn + 1;
        proof {
            let bd = boundary as int;
            let rp = recpos as int;
            let s_old = pre.logpage@;
            let s_new = self.logpage@;
            assert(s_new.subrange(0, 4) =~= spec_i32_to_be(recpos as i32));
            assert(s_new.subrange(rp, rp + 4) =~= spec_i32_to_be(logrec@.len() as i32));
            assert(s_new.subrange(rp + 4, bd) =~= logrec@);
            assert(boundary_of(s_old) == bd);
            assert(forall|t: int| bd <= t < s_old.len() ==> s_new[t] == s_old[t]);
            lemma_scan_prepend(s_old, s_new, rp, logrec@);
            // tail disk block unchanged; its scan is the new scan minus one more
            let lf = fm.blocks_of(self.logfile@);
            assert(block_scan(lf[self.currentblk as int]) == block_scan(s_old).skip(pre.unsaved()));
            assert(block_scan(s_new).skip(self.unsaved()) =~= block_scan(s_old).skip(
                pre.unsaved(),
            ));
            assert(self.log_view(*fm) =~= seq![logrec@] + pre.log_view(*fm));
            lemma_reverse_prepend(logrec@, pre.log_view(*fm));
            assert(pre.records(*fm) == old(self).records(*old(fm)));
        }
        Ok(self.latest_lsn)
    }

    /// Flushes the log, then starts a walk over all of its records in
    /// reverse chronological order.
    pub fn iterator(&mut self, fm: &mut FileMgr) -> (it: crate::logiterator::LogIterator)
        requires
            old(self).wf(*old(fm)),
        ensures
            final(self).wf(*final(fm)),
            final(fm).same_config(*old(fm)),
            final(fm).same_files_except(*old(fm), old(self).logfile@),
            final(self).logfile@ == old(self).logfile@,
            final(self).latest_lsn == old(self).latest_lsn,
            final(self).lastsaved_lsn == final(self).latest_lsn,
            final(self).records(*final(fm)) == old(self).records(*old(fm)),
            it.wf(*final(fm)),
            it.blk.filename@ == old(self).logfile@,
            it.remaining(*final(fm)) == final(self).records(*final(fm)).reverse(),
    {
        self.flush(fm);
        let blk = BlockId::new(self.logfile.as_str(), self.currentblk);
        let it = crate::logiterator::LogIterator::new(fm, blk);
        proof {
            let lf = fm.blocks_of(self.logfile@);
            assert(block_scan(self.logpage@).skip(0) =~= block_scan(self.logpage@));
            assert(it.remaining(*fm) =~= scan_down(lf, self.currentblk as int));
            assert(scan_down(lf, self.currentblk as int) =~= self.log_view(*fm));
            assert(self.log_view(*fm).reverse().reverse() =~= self.log_view(*fm));
        }
        it
    }

    /// Guarantees that the record with sequence number `lsn` (and every
    /// earlier one) is durable: flushes the tail page unless the log has
    /// already been saved at least that far.
    pub fn flush_from_lsn(&mut self, fm: &mut FileMgr, lsn: u64)
        requires
            old(self).wf(*old(fm)),
        ensures
            final(self).wf(*final(fm)),
            final(fm).same_config(*old(fm)),
            final(fm).same_files_except(*old(fm), old(self).logfile@),
            final(self).logfile@ == old(self).logfile@,
            final(self).logpage == old(self).logpage,
            final(self).currentblk == old(self).currentblk,
            final(self).latest_lsn == old(self).latest_lsn,
            final(self).records(*final(fm)) == old(self).records(*old(fm)),
            lsn > old(self).lastsaved_lsn ==> final(self).lastsaved_lsn == final(self).latest_lsn
                && final(fm).ops@.len() == old(fm).ops@.len() + 1 && final(fm).ops@.take(
                old(fm).ops@.len() as int,
            ) == old(fm).ops@ && final(fm).ops@.last().filename@ == final(self).logfile@
                && final(fm).ops@.last().blknum == final(self).currentblk && final(fm).ops@.last().bytes@
                == final(self).logpage@,
            lsn <= old(self).lastsaved_lsn ==> *final(self) == *old(self) && *final(fm) == *old(fm),
            lsn <= final(self).latest_lsn ==> final(self).lastsaved_lsn >= lsn,
    {
        if lsn > self.lastsaved_lsn {
            self.flush(fm);
        }
    }
}

/// What is on disk is exactly the log's records with the newest unsaved
/// ones dropped: every record whose sequence number is at most
/// `lastsaved_lsn` is durable.
pub proof fn lemma_durable_prefix(lm: LogMgr, fm: FileMgr)
    requires
        lm.wf(fm),
    ensures
        lm.durable_view(fm) == lm.log_view(fm).skip(lm.unsaved()),
        lm.durable_view(fm).reverse() == lm.records(fm).take(lm.records(fm).len() - lm.unsaved()),
{
    let lf = fm.blocks_of(lm.logfile@);
    assert(lm.durable_view(fm) =~= block_scan(lf[lm.currentblk as int]) + scan_down(
        lf,
        lm.currentblk - 1,
    ));
    assert(lm.log_view(fm).skip(lm.unsaved()) =~= block_scan(lm.logpage@).skip(lm.unsaved())
        + scan_down(lf, lm.currentblk - 1));
    assert(lm.durable_view(fm).reverse() =~= lm.records(fm).take(
        lm.records(fm).len() - lm.unsaved(),
    ));
}

/// Every block of the named file parses as a log block, and every block
/// below the last holds at least one record.
pub open spec fn spec_valid_log(fm: FileMgr, name: Seq<char>) -> bool {
    let lf = fm.blocks_of(name);
    &&& forall|j: int| 0 <= j < lf.len() ==> wf_log_block(#[trigger] lf[j])
    &&& forall|j: int| 0 <= j < lf.len() - 1 ==> block_scan(#[trigger] lf[j]).len() >= 1
}

/// Whether a page parses as a log block: a boundary at offset 0 and
/// records packed from the boundary to the page's end.
fn check_log_block(p: &Page) -> (ok: bool)
    ensures
        ok == wf_log_block(p@),
{
    let len: usize = p.bb.len();
    if len < 4 {
        return false;
    }
    let b: i32 = match p.get_int(0) {
        Ok(v) => v,
        Err(_) => {
            proof {
                assert(false);
            }
            return false;
        },
    };
    if b < 4 {
        return false;
    }
    let bus: usize = b as usize;
    if bus > len {
        return false;
    }
    proof {
        assert(boundary_of(p@) == bus as int);
    }
    let mut pos: usize = bus;
    while pos < len
        invariant
            4 <= pos <= len,
            len == p@.len(),
            4 <= bus <= len,
            boundary_of(p@) == bus as int,
            wf_from(p@, pos as int) <==> wf_from(p@, bus as int),
        decreases len - pos,
    {
        let l: i32 = match p.get_int(pos) {
            Ok(v) => v,
            Err(_) => {
                proof {
                    assert(!valid_rec_at(p@, pos as int));
                    assert(!wf_from(p@, pos as int));
                }
                return false;
            },
        };
        if l < 0 {
            proof {
                assert(!valid_rec_at(p@, pos as int));
                assert(!wf_from(p@, pos as int));
            }
            return false;
        }
        let lu: usize = l as usize;
        if lu > len - pos - 4 {
            proof {
                assert(!valid_rec_at(p@, pos as int));
                assert(!wf_from(p@, pos as int));
            }
            return false;
        }
        pos = pos + 4 + lu;
    }
    true
}

} // verus!
