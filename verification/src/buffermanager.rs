//! The buffer pool: a fixed number of page buffers multiplexed across
//! many disk blocks under pin/unpin discipline.
//!
//! A block already resident in the pool is pinned again in place, with no
//! disk traffic. Otherwise the first unpinned slot is claimed, its old
//! content flushed if modified, and the requested block loaded into it.
//! When every slot is pinned the request is refused with
//! [`BufferMgrError::BufferAbort`]; an unverified caller may retry within
//! its own wait budget.

use vstd::prelude::*;
use crate::blockid::BlockId;
use crate::buffer::{lsn_of, Buffer};
use crate::filemanager::{grow_update, lemma_grow_update_preserves, FileMgr};
use crate::logmanager::LogMgr;

verus! {

/// The fixed wait budget of a pin request, in milliseconds.
pub const MAX_WAIT_MILLIS: i64 = 10000;

/// Failure of a buffer-pool request.
#[derive(Debug, Clone, Copy, PartialEq, Eq, Structural)]
pub enum BufferMgrError {
    /// No buffer slot is free: every buffer is pinned.
    BufferAbort,
}

/// Whether two block identifiers name the same block.
pub open spec fn same_block(a: BlockId, b: BlockId) -> bool {
    a.filename@ == b.filename@ && a.blknum == b.blknum
}

/// The number of unpinned buffers in the pool.
pub open spec fn count_unpinned(pool: Seq<Buffer>) -> int
    decreases pool.len(),
{
    if pool.len() == 0 {
        0
    } else {
        count_unpinned(pool.drop_last()) + if pool.last().pins == 0 {
            1int
        } else {
            0int
        }
    }
}

/// Whether some buffer currently holds block `blk`.
pub open spec fn has_block(pool: Seq<Buffer>, blk: BlockId) -> bool {
    exists|i: int|
        0 <= i < pool.len() && pool[i].blk is Some && same_block(#[trigger] pool[i].blk->0, blk)
}

/// The unpinned count lies between zero and the pool size.
proof fn lemma_count_bounds(pool: Seq<Buffer>)
    ensures
        0 <= count_unpinned(pool) <= pool.len(),
    decreases pool.len(),
{
    if pool.len() > 0 {
        lemma_count_bounds(pool.drop_last());
    }
}

/// An unpinned buffer makes the unpinned count positive.
proof fn lemma_count_pos(pool: Seq<Buffer>, i: int)
    requires
        0 <= i < pool.len(),
        pool[i].pins == 0,
    ensures
        count_unpinned(pool) >= 1,
    decreases pool.len(),
{
    if i < pool.len() - 1 {
        lemma_count_pos(pool.drop_last(), i);
        lemma_count_bounds(pool.drop_last());
    } else {
        lemma_count_bounds(pool.drop_last());
    }
}

/// A pool whose buffers are all pinned has no unpinned buffer to count.
proof fn lemma_count_all_pinned(pool: Seq<Buffer>)
    requires
        forall|i: int| 0 <= i < pool.len() ==> #[trigger] pool[i].pins > 0,
    ensures
        count_unpinned(pool) == 0,
    decreases pool.len(),
{
    if pool.len() > 0 {
        lemma_count_all_pinned(pool.drop_last());
    }
}

/// Replacing one buffer changes the unpinned count by the difference of
/// the two buffers' pinnedness.
proof fn lemma_count_update(pool: Seq<Buffer>, i: int, b: Buffer)
    requires
        0 <= i < pool.len(),
    ensures
        count_unpinned(pool.update(i, b)) == count_unpinned(pool) - (if pool[i].pins == 0 {
            1int
        } else {
            0int
        }) + (if b.pins == 0 {
            1int
        } else {
            0int
        }),
    decreases pool.len(),
{
    let upd = pool.update(i, b);
    if i < pool.len() - 1 {
        assert(upd.drop_last() =~= pool.drop_last().update(i, b));
        assert(upd.last() == pool.last());
        lemma_count_update(pool.drop_last(), i, b);
    } else {
        assert(upd.drop_last() =~= pool.drop_last());
        assert(upd.last() == b);
    }
}

/// Owns the fixed pool of buffers and serves pin and unpin requests on
/// it.
pub struct BufferMgr {
    /// The pool's buffers.
    pub bufferpool: Vec<Buffer>,
    /// How many buffers are currently unpinned.
    pub num_available: usize,
}

impl BufferMgr {
    /// Structural invariant relative to the managers: every buffer is
    /// well formed, no two buffers hold the same block, and
    /// `num_available` counts the unpinned buffers exactly.
    pub open spec fn wf(self, fm: FileMgr, lm: LogMgr) -> bool {
        let pool = self.bufferpool@;
        &&& forall|i: int| 0 <= i < pool.len() ==> (#[trigger] pool[i]).wf(fm, lm)
        &&& forall|i: int, j: int|
            0 <= i < pool.len() && 0 <= j < pool.len() && i != j && pool[i].blk is Some
                && pool[j].blk is Some ==> !same_block(
                #[trigger] pool[i].blk->0,
                #[trigger] pool[j].blk->0,
            )
        &&& self.num_available == count_unpinned(pool)
    }

    /// A pool of `numbuffs` empty buffers, all unpinned and available.
    pub fn new(fm: &FileMgr, lm: &LogMgr, numbuffs: usize) -> (bm: BufferMgr)
        ensures
            bm.wf(*fm, *lm),
            bm.bufferpool@.len() == numbuffs,
            bm.num_available == numbuffs,
            forall|i: int|
                0 <= i < numbuffs ==> (#[trigger] bm.bufferpool@[i]).blk is None
                    && bm.bufferpool@[i].pins == 0 && bm.bufferpool@[i].txnum == -1,
    {
        let mut bufferpool: Vec<Buffer> = Vec::new();
        let mut i: usize = 0;
        while i < numbuffs
            invariant
                i <= numbuffs,
                bufferpool@.len() == i,
                count_unpinned(bufferpool@) == i,
                forall|t: int|
                    0 <= t < i ==> (#[trigger] bufferpool@[t]).blk is None && bufferpool@[t].pins
                        == 0 && bufferpool@[t].txnum == -1 && bufferpool@[t].contents@.len()
                        == fm.blocksize,
            decreases numbuffs - i,
        {
            let ghost pre = bufferpool@;
            bufferpool.push(Buffer::new(fm));
            proof {
                assert(bufferpool@.drop_last() =~= pre);
            }
            i = i + 1;
        }
        BufferMgr { bufferpool, num_available: numbuffs }
    }

    /// How many buffers are currently unpinned.
    pub fn available(&self) -> (r: usize)
        ensures
            r == self.num_available,
    {
        self.num_available
    }

    /// The buffer in slot `idx`.
    pub fn buffer(&self, idx: usize) -> (r: &Buffer)
        requires
            idx < self.bufferpool@.len(),
        ensures
            *r == self.bufferpool@[idx as int],
    {
        &self.bufferpool[idx]
    }

    /// Mutable access to the buffer in slot `idx`, the handle a caller
    /// works with after pinning. A verified caller that changes the
    /// buffer's pin count or block through it must re-establish the
    /// pool's invariant itself.
    pub fn buffer_mut(&mut self, idx: usize) -> (r: &mut Buffer)
        requires
            idx < old(self).bufferpool@.len(),
        ensures
            *r == old(self).bufferpool@[idx as int],
            final(self).bufferpool@ == old(self).bufferpool@.update(idx as int, *final(r)),
            final(self).num_available == old(self).num_available,
    {
        &mut self.bufferpool[idx]
    }

    /// Records that transaction `txnum` modified the buffer in slot
    /// `idx`, which must hold a block.
    pub fn set_modified(&mut self, idx: usize, txnum: i32, lsn: i32)
        requires
            idx < old(self).bufferpool@.len(),
            old(self).bufferpool@[idx as int].blk is Some,
        ensures
            final(self).bufferpool@ == old(self).bufferpool@.update(
                idx as int,
                final(self).bufferpool@[idx as int],
            ),
            final(self).bufferpool@[idx as int].txnum == txnum,
            final(self).bufferpool@[idx as int].lsn == if lsn >= 0 {
                lsn
            } else {
                old(self).bufferpool@[idx as int].lsn
            },
            final(self).bufferpool@[idx as int].contents == old(self).bufferpool@[idx as int].contents,
            final(self).bufferpool@[idx as int].blk == old(self).bufferpool@[idx as int].blk,
            final(self).bufferpool@[idx as int].pins == old(self).bufferpool@[idx as int].pins,
            final(self).num_available == old(self).num_available,
    {
        self.bufferpool[idx].set_modified(txnum, lsn);
        proof {
            assert(self.bufferpool@ =~= old(self).bufferpool@.update(
                idx as int,
                self.bufferpool@[idx as int],
            ));
        }
    }

    /// Flushes every buffer that transaction `txnum` modified: each such
    /// buffer's log record is made durable first and its page then
    /// written to its block, after which the buffer is clean. Pins,
    /// block assignments and contents are untouched, and buffers of
    /// other transactions are left alone.
    pub fn flush_all(&mut self, fm: &mut FileMgr, lm: &mut LogMgr, txnum: i32)
        requires
            old(self).wf(*old(fm), *old(lm)),
            old(lm).wf(*old(fm)),
        ensures
            final(self).wf(*final(fm), *final(lm)),
            final(lm).wf(*final(fm)),
            final(fm).same_config(*old(fm)),
            final(lm).logfile@ == old(lm).logfile@,
            final(lm).latest_lsn == old(lm).latest_lsn,
            final(lm).lastsaved_lsn >= old(lm).lastsaved_lsn,
            final(lm).records(*final(fm)) == old(lm).records(*old(fm)),
            old(fm).ops@.is_prefix_of(final(fm).ops@),
            final(self).bufferpool@.len() == old(self).bufferpool@.len(),
            final(self).num_available == old(self).num_available,
            forall|j: int|
                0 <= j < old(self).bufferpool@.len() ==> {
                    let pre = old(self).bufferpool@[j];
                    let post = #[trigger] final(self).bufferpool@[j];
                    &&& post.contents == pre.contents
                    &&& post.blk == pre.blk
                    &&& post.pins == pre.pins
                    &&& post.lsn == pre.lsn
                    &&& post.txnum == if pre.txnum == txnum && txnum >= 0 {
                        -1int as i32
                    } else {
                        pre.txnum
                    }
                },
            forall|j: int|
                0 <= j < old(self).bufferpool@.len() && (#[trigger] old(
                    self,
                ).bufferpool@[j]).txnum == txnum && txnum >= 0 ==> {
                    let b = old(self).bufferpool@[j].blk->0;
                    &&& b.blknum < final(fm).blocks_of(b.filename@).len()
                    &&& final(fm).blocks_of(b.filename@)[b.blknum as int] == old(
                        self,
                    ).bufferpool@[j].contents@
                    &&& (lsn_of(old(self).bufferpool@[j].lsn) <= old(lm).latest_lsn
                        ==> final(lm).lastsaved_lsn >= lsn_of(old(self).bufferpool@[j].lsn))
                },
    {
        let n: usize = self.bufferpool.len();
        let mut i: usize = 0;
        while i < n
            invariant
                i <= n,
                n == self.bufferpool@.len(),
                old(self).wf(*old(fm), *old(lm)),
                old(lm).wf(*old(fm)),
                self.wf(*fm, *lm),
                lm.wf(*fm),
                fm.same_config(*old(fm)),
                lm.logfile@ == old(lm).logfile@,
                lm.latest_lsn == old(lm).latest_lsn,
                lm.records(*fm) == old(lm).records(*old(fm)),
                self.bufferpool@.len() == old(self).bufferpool@.len(),
                self.num_available == old(self).num_available,
                forall|j: int|
                    i <= j < n ==> #[trigger] self.bufferpool@[j] == old(self).bufferpool@[j],
                forall|j: int|
                    0 <= j < i ==> {
                        let pre = old(self).bufferpool@[j];
                        let post = #[trigger] self.bufferpool@[j];
                        &&& post.contents == pre.contents
                        &&& post.blk == pre.blk
                        &&& post.pins == pre.pins
                        &&& post.lsn == pre.lsn
                        &&& post.txnum == if pre.txnum == txnum && txnum >= 0 {
                            -1int as i32
                        } else {
                            pre.txnum
                        }
                    },
                lm.lastsaved_lsn >= old(lm).lastsaved_lsn,
                old(fm).ops@.is_prefix_of(fm.ops@),
                forall|j: int|
                    0 <= j < i && (#[trigger] old(self).bufferpool@[j]).txnum == txnum && txnum
                        >= 0 ==> {
                        let b = old(self).bufferpool@[j].blk->0;
                        &&& b.blknum < fm.blocks_of(b.filename@).len()
                        &&& fm.blocks_of(b.filename@)[b.blknum as int] == old(
                            self,
                        ).bufferpool@[j].contents@
                        &&& (lsn_of(old(self).bufferpool@[j].lsn) <= old(lm).latest_lsn
                            ==> lm.lastsaved_lsn >= lsn_of(old(self).bufferpool@[j].lsn))
                    },
            decreases n - i,
        {
            let ghost prepool = self.bufferpool@;
            let ghost prefm = *fm;
            let ghost prelm = *lm;
            if self.bufferpool[i].modifying_tx() == txnum {
                self.bufferpool[i].flush(fm, lm);
                proof {
                    assert(self.bufferpool@ =~= prepool.update(i as int, self.bufferpool@[i as int]));
                    lemma_count_update(prepool, i as int, self.bufferpool@[i as int]);
                    assert forall|t: int|
                        0 <= t < self.bufferpool@.len() implies (#[trigger] self.bufferpool@[t]).wf(
                        *fm,
                        *lm,
                    ) by {
                        assert(prepool[t].wf(prefm, prelm));
                    }
                    assert(fm.ops@.subrange(0, old(fm).ops@.len() as int) =~= prefm.ops@.subrange(
                        0,
                        old(fm).ops@.len() as int,
                    ));
                    if txnum >= 0 {
                        let b = prepool[i as int].blk->0;
                        // the flushed buffer's block now holds its page
                        assert(fm.blocks_of(b.filename@) == grow_update(
                            prefm.blocks_of(b.filename@),
                            b.blknum as int,
                            prepool[i as int].contents@,
                            prefm.blocksize as int,
                        ));
                        assert(fm.blocks_of(b.filename@)[b.blknum as int] == prepool[i
                            as int].contents@);
                        // blocks flushed earlier keep their bytes
                        assert forall|j: int|
                            0 <= j < i && (#[trigger] old(self).bufferpool@[j]).txnum == txnum
                                implies {
                                let bj = old(self).bufferpool@[j].blk->0;
                                &&& bj.blknum < fm.blocks_of(bj.filename@).len()
                                &&& fm.blocks_of(bj.filename@)[bj.blknum as int] == old(
                                    self,
                                ).bufferpool@[j].contents@
                            } by {
                            let bj = old(self).bufferpool@[j].blk->0;
                            assert(old(self).bufferpool@[j].wf(*old(fm), *old(lm)));
                            assert(old(self).bufferpool@[j].blk is Some);
                            assert(bj.filename@ != old(lm).logfile@);
                            assert(prepool[j].blk == old(self).bufferpool@[j].blk);
                            assert(prepool[i as int].blk is Some);
                            if bj.filename@ != b.filename@ {
                                assert(fm.blocks_of(bj.filename@) == prefm.blocks_of(bj.filename@));
                            } else {
                                assert(!same_block(
                                    prepool[i as int].blk->0,
                                    prepool[j].blk->0,
                                ));
                                lemma_grow_update_preserves(
                                    prefm.blocks_of(b.filename@),
                                    b.blknum as int,
                                    prepool[i as int].contents@,
                                    prefm.blocksize as int,
                                    bj.blknum as int,
                                );
                            }
                        }
                    }
                }
            }
            i = i + 1;
        }
    }

    /// Releases one pin on the buffer in slot `buff_index`; a buffer
    /// whose last pin is released becomes available again.
    pub fn unpin(&mut self, buff_index: usize)
        requires
            buff_index < old(self).bufferpool@.len(),
            old(self).bufferpool@[buff_index as int].pins > 0,
            old(self).num_available == count_unpinned(old(self).bufferpool@),
        ensures
            final(self).bufferpool@ == old(self).bufferpool@.update(
                buff_index as int,
                final(self).bufferpool@[buff_index as int],
            ),
            final(self).bufferpool@[buff_index as int].pins == old(self).bufferpool@[buff_index as int].pins
                - 1,
            final(self).bufferpool@[buff_index as int].contents == old(self).bufferpool@[buff_index as int].contents,
            final(self).bufferpool@[buff_index as int].blk == old(self).bufferpool@[buff_index as int].blk,
            final(self).bufferpool@[buff_index as int].txnum == old(self).bufferpool@[buff_index as int].txnum,
            final(self).bufferpool@[buff_index as int].lsn == old(self).bufferpool@[buff_index as int].lsn,
            final(self).num_available == count_unpinned(final(self).bufferpool@),
            final(self).num_available == old(self).num_available + (
            if old(self).bufferpool@[buff_index as int].pins == 1 {
                1int
            } else {
                0int
            }),
    {
        let ghost prepool = self.bufferpool@;
        self.bufferpool[buff_index].unpin();
        proof {
            assert(self.bufferpool@ =~= prepool.update(
                buff_index as int,
                self.bufferpool@[buff_index as int],
            ));
            lemma_count_update(prepool, buff_index as int, self.bufferpool@[buff_index as int]);
            lemma_count_bounds(self.bufferpool@);
            vstd::std_specs::vec::axiom_spec_len(&self.bufferpool);
        }
        if !self.bufferpool[buff_index].is_pinned() {
            self.num_available = self.num_available + 1;
        }
    }

    /// The slot already holding block `blk`, if any; the first such slot
    /// (no two slots of a well-formed pool hold the same block).
    pub fn find_existing_buffer(&self, blk: &BlockId) -> (r: Option<usize>)
        ensures
            r is Some ==> r->0 < self.bufferpool@.len() && self.bufferpool@[r->0 as int].blk
                is Some && same_block(self.bufferpool@[r->0 as int].blk->0, *blk),
            r is None ==> !has_block(self.bufferpool@, *blk),
    {
        let n: usize = self.bufferpool.len();
        let mut i: usize = 0;
        while i < n
            invariant
                i <= n,
                n == self.bufferpool@.len(),
                forall|j: int|
                    0 <= j < i ==> !((#[trigger] self.bufferpool@[j].blk) is Some && same_block(
                        self.bufferpool@[j].blk->0,
                        *blk,
                    )),
            decreases n - i,
        {
            match &self.bufferpool[i].blk {
                Some(b) => {
                    if b == blk {
                        return Some(i);
                    }
                },
                None => {},
            }
            i = i + 1;
        }
        None
    }

    /// The first unpinned slot, if any.
    pub fn choose_unpinned_buffer(&self) -> (r: Option<usize>)
        ensures
            r is Some ==> r->0 < self.bufferpool@.len() && self.bufferpool@[r->0 as int].pins == 0
                && forall|j: int| 0 <= j < r->0 ==> #[trigger] self.bufferpool@[j].pins > 0,
            r is None ==> forall|j: int|
                0 <= j < self.bufferpool@.len() ==> #[trigger] self.bufferpool@[j].pins > 0,
    {
        let n: usize = self.bufferpool.len();
        let mut i: usize = 0;
        while i < n
            invariant
                i <= n,
                n == self.bufferpool@.len(),
                forall|j: int| 0 <= j < i ==> #[trigger] self.bufferpool@[j].pins > 0,
            decreases n - i,
        {
            if !self.bufferpool[i].is_pinned() {
                return Some(i);
            }
            i = i + 1;
        }
        None
    }

    /// One attempt to pin data block `blk`: reuse the slot already
    /// holding it, else claim the first unpinned slot and load the block
    /// into it, else report that the pool is full. Pinning a resident
    /// block touches neither disk nor log.
    pub fn try_to_pin(&mut self, fm: &mut FileMgr, lm: &mut LogMgr, blk: &BlockId) -> (r: Option<
        usize,
    >)
        requires
            old(self).wf(*old(fm), *old(lm)),
            old(lm).wf(*old(fm)),
            blk.filename@ != old(lm).logfile@,
            blk.blknum <= usize::MAX as u64,
            forall|i: int|
                0 <= i < old(self).bufferpool@.len() ==> #[trigger] old(self).bufferpool@[i].pins
                    < u64::MAX,
        ensures
            final(self).wf(*final(fm), *final(lm)),
            final(lm).wf(*final(fm)),
            final(fm).same_config(*old(fm)),
            final(lm).logfile@ == old(lm).logfile@,
            final(lm).latest_lsn == old(lm).latest_lsn,
            final(lm).records(*final(fm)) == old(lm).records(*old(fm)),
            final(self).bufferpool@.len() == old(self).bufferpool@.len(),
            r is None <==> !has_block(old(self).bufferpool@, *blk) && old(self).num_available
                == 0,
            r is None ==> *final(self) == *old(self) && *final(fm) == *old(fm) && *final(lm)
                == *old(lm),
            r is Some ==> {
                let i = r->0 as int;
                &&& i < old(self).bufferpool@.len()
                &&& final(self).bufferpool@[i].blk is Some
                &&& same_block(final(self).bufferpool@[i].blk->0, *blk)
                &&& final(self).bufferpool@[i].pins == if has_block(old(self).bufferpool@, *blk) {
                    old(self).bufferpool@[i].pins + 1
                } else {
                    1int
                }
                &&& final(self).bufferpool@ == old(self).bufferpool@.update(
                    i,
                    final(self).bufferpool@[i],
                )
                &&& final(self).num_available == old(self).num_available - (
                if old(self).bufferpool@[i].pins == 0 {
                    1int
                } else {
                    0int
                })
            },
            r is Some && has_block(old(self).bufferpool@, *blk) ==> {
                let i = r->0 as int;
                &&& old(self).bufferpool@[i].blk is Some
                &&& same_block(old(self).bufferpool@[i].blk->0, *blk)
                &&& final(self).bufferpool@[i].contents == old(self).bufferpool@[i].contents
                &&& final(self).bufferpool@[i].txnum == old(self).bufferpool@[i].txnum
                &&& final(self).bufferpool@[i].lsn == old(self).bufferpool@[i].lsn
                &&& *final(fm) == *old(fm)
                &&& *final(lm) == *old(lm)
            },
            r is Some && !has_block(old(self).bufferpool@, *blk) ==> {
                let i = r->0 as int;
                &&& old(self).bufferpool@[i].pins == 0
                &&& (forall|j: int| 0 <= j < i ==> #[trigger] old(self).bufferpool@[j].pins > 0)
                &&& final(self).bufferpool@[i].contents@ == final(fm).block_at(
                    blk.filename@,
                    blk.blknum as int,
                )
                &&& final(self).bufferpool@[i].txnum < 0
                &&& old(fm).ops@.is_prefix_of(final(fm).ops@)
                &&& (old(self).bufferpool@[i].txnum < 0 ==> *final(fm) == *old(fm) && *final(lm)
                    == *old(lm))
                &&& (old(self).bufferpool@[i].txnum >= 0 ==> {
                    let bv = old(self).bufferpool@[i].blk->0;
                    &&& final(fm).blocks_of(bv.filename@) == grow_update(
                        old(fm).blocks_of(bv.filename@),
                        bv.blknum as int,
                        old(self).bufferpool@[i].contents@,
                        old(fm).blocksize as int,
                    )
                    &&& (lsn_of(old(self).bufferpool@[i].lsn) <= old(lm).latest_lsn
                        ==> final(lm).lastsaved_lsn >= lsn_of(old(self).bufferpool@[i].lsn))
                })
            },
    {
        match self.find_existing_buffer(blk) {
            Some(i) => {
                let ghost prepool = self.bufferpool@;
                let was_unpinned: bool = !self.bufferpool[i].is_pinned();
                self.bufferpool[i].pin();
                proof {
                    assert(self.bufferpool@ =~= prepool.update(i as int, self.bufferpool@[i as int]));
                    lemma_count_update(prepool, i as int, self.bufferpool@[i as int]);
                    if prepool[i as int].pins == 0 {
                        lemma_count_pos(prepool, i as int);
                    }
                    assert(has_block(prepool, *blk));
                }
                if was_unpinned {
                    self.num_available = self.num_available - 1;
                }
                Some(i)
            },
            None => {
                match self.choose_unpinned_buffer() {
                    Some(i) => {
                        let ghost prepool = self.bufferpool@;
                        let ghost prefm = *fm;
                        let ghost prelm = *lm;
                        let nb = BlockId::new(blk.filename(), blk.number());
                        self.bufferpool[i].assign_to_block(fm, lm, nb);
                        proof {
                            assert(self.bufferpool@ =~= prepool.update(
                                i as int,
                                self.bufferpool@[i as int],
                            ));
                            lemma_count_update(prepool, i as int, self.bufferpool@[i as int]);
                            lemma_count_pos(prepool, i as int);
                            assert forall|t: int|
                                0 <= t < self.bufferpool@.len() implies (
                            #[trigger] self.bufferpool@[t]).wf(*fm, *lm) by {
                                assert(prepool[t].wf(prefm, prelm));
                            }
                        }
                        let ghost midpool = self.bufferpool@;
                        self.bufferpool[i].pin();
                        self.num_available = self.num_available - 1;
                        proof {
                            assert(self.bufferpool@ =~= midpool.update(
                                i as int,
                                self.bufferpool@[i as int],
                            ));
                            lemma_count_update(midpool, i as int, self.bufferpool@[i as int]);
                            assert(self.bufferpool@ =~= prepool.update(
                                i as int,
                                self.bufferpool@[i as int],
                            ));
                        }
                        Some(i)
                    },
                    None => {
                        proof {
                            lemma_count_all_pinned(self.bufferpool@);
                        }
                        None
                    },
                }
            },
        }
    }

    /// Pins block `blk`, which must be a data block: the log file's
    /// blocks belong to the log manager alone and are never pooled. A
    /// well-formed single attempt: if the block is not resident and
    /// every buffer is pinned, the request fails with `BufferAbort` at
    /// once; a caller with a wait budget retries around this.
    pub fn pin(&mut self, fm: &mut FileMgr, lm: &mut LogMgr, blk: &BlockId) -> (r: Result<
        usize,
        BufferMgrError,
    >)
        requires
            old(self).wf(*old(fm), *old(lm)),
            old(lm).wf(*old(fm)),
            blk.filename@ != old(lm).logfile@,
            blk.blknum <= usize::MAX as u64,
            forall|i: int|
                0 <= i < old(self).bufferpool@.len() ==> #[trigger] old(self).bufferpool@[i].pins
                    < u64::MAX,
        ensures
            final(self).wf(*final(fm), *final(lm)),
            final(lm).wf(*final(fm)),
            final(fm).same_config(*old(fm)),
            final(lm).logfile@ == old(lm).logfile@,
            final(lm).latest_lsn == old(lm).latest_lsn,
            final(lm).records(*final(fm)) == old(lm).records(*old(fm)),
            final(self).bufferpool@.len() == old(self).bufferpool@.len(),
            r is Err <==> !has_block(old(self).bufferpool@, *blk) && old(self).num_available == 0,
            r is Err ==> r->Err_0 == BufferMgrError::BufferAbort && *final(self) == *old(self)
                && *final(fm) == *old(fm) && *final(lm) == *old(lm),
            r is Ok ==> {
                let i = r->Ok_0 as int;
                &&& i < old(self).bufferpool@.len()
                &&& final(self).bufferpool@[i].blk is Some
                &&& same_block(final(self).bufferpool@[i].blk->0, *blk)
                &&& final(self).bufferpool@[i].pins == if has_block(old(self).bufferpool@, *blk) {
                    old(self).bufferpool@[i].pins + 1
                } else {
                    1int
                }
                &&& final(self).bufferpool@ == old(self).bufferpool@.update(
                    i,
                    final(self).bufferpool@[i],
                )
                &&& final(self).num_available == old(self).num_available - (
                if old(self).bufferpool@[i].pins == 0 {
                    1int
                } else {
                    0int
                })
            },
            r is Ok && has_block(old(self).bufferpool@, *blk) ==> {
                let i = r->Ok_0 as int;
                &&& old(self).bufferpool@[i].blk is Some
                &&& same_block(old(self).bufferpool@[i].blk->0, *blk)
                &&& final(self).bufferpool@[i].contents == old(self).bufferpool@[i].contents
                &&& *final(fm) == *old(fm)
                &&& *final(lm) == *old(lm)
            },
            r is Ok && !has_block(old(self).bufferpool@, *blk) ==> {
                let i = r->Ok_0 as int;
                &&& old(self).bufferpool@[i].pins == 0
                &&& (forall|j: int| 0 <= j < i ==> #[trigger] old(self).bufferpool@[j].pins > 0)
                &&& final(self).bufferpool@[i].contents@ == final(fm).block_at(
                    blk.filename@,
                    blk.blknum as int,
                )
                &&& old(fm).ops@.is_prefix_of(final(fm).ops@)
                &&& (old(self).bufferpool@[i].txnum < 0 ==> *final(fm) == *old(fm) && *final(lm)
                    == *old(lm))
                &&& (old(self).bufferpool@[i].txnum >= 0 ==> {
                    let bv = old(self).bufferpool@[i].blk->0;
                    &&& final(fm).blocks_of(bv.filename@) == grow_update(
                        old(fm).blocks_of(bv.filename@),
                        bv.blknum as int,
                        old(self).bufferpool@[i].contents@,
                        old(fm).blocksize as int,
                    )
                    &&& (lsn_of(old(self).bufferpool@[i].lsn) <= old(lm).latest_lsn
                        ==> final(lm).lastsaved_lsn >= lsn_of(old(self).bufferpool@[i].lsn))
                })
            },
    {
        match self.try_to_pin(fm, lm, blk) {
            Some(i) => Ok(i),
            None => Err(BufferMgrError::BufferAbort),
        }
    }
}

/// Whether a pin request that has already waited `elapsed_millis`
/// milliseconds has exhausted its budget; the clock itself is read by
/// the caller.
pub fn waiting_too_long(elapsed_millis: i64) -> (r: bool)
    ensures
        r == (elapsed_millis > MAX_WAIT_MILLIS),
{
    elapsed_millis > MAX_WAIT_MILLIS
}

} // verus!
