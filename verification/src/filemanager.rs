//! The file manager: the set of named block files a database is made of.
//!
//! `FileMgr` tracks the intended contents of every file as whole blocks of
//! exactly `blocksize` bytes, and journals every block write it performs as
//! a [`DiskOp`]. A thin unverified I/O layer constructs the manager from a
//! directory listing, replays the journalled operations against the real
//! files in order, and deletes the leftover temporary files reported by
//! [`FileMgr::new`]. Reads are answered from the tracked contents; a block
//! beyond a file's end reads as zeroes, as a short read from a real file
//! would after zero-filling.

use vstd::prelude::*;
use crate::blockid::BlockId;
use crate::page::Page;

verus! {

/// One named file, as a sequence of full blocks.
pub struct DbFile {
    /// The file's name within the database directory.
    pub name: String,
    /// The file's contents, one entry per block.
    pub blocks: Vec<Vec<u8>>,
}

/// One block write, to be applied to the real file system: `bytes` go to
/// byte offset `blknum * blocksize` of the named file.
pub struct DiskOp {
    /// Name of the file written.
    pub filename: String,
    /// Index of the block written.
    pub blknum: u64,
    /// The block's new bytes, exactly one block long.
    pub bytes: Vec<u8>,
}

/// A zero-filled block of `bs` bytes.
pub open spec fn zero_block(bs: int) -> Seq<u8> {
    Seq::new(bs as nat, |i: int| 0u8)
}

/// No two files share a name.
pub open spec fn names_unique(files: Seq<DbFile>) -> bool {
    forall|i: int, j: int|
        0 <= i < files.len() && 0 <= j < files.len() && i != j ==> files[i].name@ != files[j].name@
}

/// Whether some file in `files` is called `name`.
pub open spec fn shas(files: Seq<DbFile>, name: Seq<char>) -> bool {
    exists|i: int| 0 <= i < files.len() && files[i].name@ == name
}

/// The index of the file called `name` (meaningful when `shas` holds and
/// names are unique).
pub open spec fn sdx(files: Seq<DbFile>, name: Seq<char>) -> int {
    choose|i: int| 0 <= i < files.len() && files[i].name@ == name
}

/// The blocks of the file called `name`; a file that does not exist has no
/// blocks.
pub open spec fn sblocks(files: Seq<DbFile>, name: Seq<char>) -> Seq<Seq<u8>> {
    if shas(files, name) {
        files[sdx(files, name)].blocks.deep_view()
    } else {
        Seq::empty()
    }
}

/// `bytes` cut into blocks of `bs` bytes, the last block zero-padded.
pub open spec fn chunk_bytes(bytes: Seq<u8>, bs: int) -> Seq<Seq<u8>>
    decreases bytes.len(),
{
    if bs <= 0 || bytes.len() == 0 {
        Seq::empty()
    } else if bytes.len() >= bs {
        seq![bytes.take(bs)] + chunk_bytes(bytes.skip(bs), bs)
    } else {
        seq![bytes + zero_block(bs - bytes.len())]
    }
}

/// Whether a file name marks a leftover temporary file: it begins with
/// the reserved prefix `temp`.
pub open spec fn is_temp_name(name: Seq<char>) -> bool {
    name.len() >= 4 && name[0] == 't' && name[1] == 'e' && name[2] == 'm' && name[3] == 'p'
}

/// The listing entries that are kept: their names lack the temporary
/// prefix.
pub open spec fn kept_entries(listing: Seq<(String, Vec<u8>)>) -> Seq<(String, Vec<u8>)> {
    listing.filter(|e: (String, Vec<u8>)| !is_temp_name(e.0@))
}

/// The listing entries that are purged: leftover temporary files.
pub open spec fn temp_entries(listing: Seq<(String, Vec<u8>)>) -> Seq<(String, Vec<u8>)> {
    listing.filter(|e: (String, Vec<u8>)| is_temp_name(e.0@))
}

/// The deep view of a vector of byte vectors is its elements' views,
/// position by position.
proof fn lemma_deep_view_points(v: &Vec<Vec<u8>>)
    ensures
        v.deep_view().len() == v@.len(),
        forall|i: int| 0 <= i < v@.len() ==> v.deep_view()[i] == v@[i]@,
{
    assert forall|i: int| 0 <= i < v@.len() implies v.deep_view()[i] == v@[i]@ by {
        assert(v@[i].deep_view() =~= v@[i]@);
    }
}

/// `blocks` with block `num` set to `bytes`, growing the file with
/// zero-filled blocks first if `num` lies beyond its current end.
pub open spec fn grow_update(blocks: Seq<Seq<u8>>, num: int, bytes: Seq<u8>, bs: int) -> Seq<
    Seq<u8>,
> {
    if num < blocks.len() {
        blocks.update(num, bytes)
    } else {
        blocks + Seq::new((num - blocks.len()) as nat, |i: int| zero_block(bs)) + seq![bytes]
    }
}

/// A grown-or-updated file keeps every block other than the written one.
pub proof fn lemma_grow_update_preserves(
    blocks: Seq<Seq<u8>>,
    num: int,
    bytes: Seq<u8>,
    bs: int,
    t: int,
)
    requires
        0 <= t < blocks.len(),
        0 <= num,
        t != num,
    ensures
        t < grow_update(blocks, num, bytes, bs).len(),
        grow_update(blocks, num, bytes, bs)[t] == blocks[t],
{
    let g = grow_update(blocks, num, bytes, bs);
    if num < blocks.len() {
        assert(g[t] == blocks[t]);
    } else {
        assert(g.len() == num + 1);
        assert(g[t] == blocks[t]);
    }
}

/// Owns the database's files; every read and write of block contents goes
/// through it.
pub struct FileMgr {
    /// Path of the database directory, for the I/O layer.
    pub db_directory: String,
    /// The fixed size of every block, in bytes.
    pub blocksize: usize,
    /// Whether the database directory had to be created for this run.
    pub is_new: bool,
    /// The tracked files.
    pub files: Vec<DbFile>,
    /// Journal of block writes not yet applied to the real file system.
    pub ops: Vec<DiskOp>,
}

impl FileMgr {
    /// Structural invariant: unique file names, and every tracked block is
    /// exactly one block long. The block size is positive and small enough
    /// that in-block offsets fit a 32-bit integer.
    pub open spec fn wf(self) -> bool {
        &&& names_unique(self.files@)
        &&& forall|i: int, j: int|
            0 <= i < self.files@.len() && 0 <= j < self.files@[i].blocks@.len()
                ==> #[trigger] self.files@[i].blocks@[j]@.len() == self.blocksize
        &&& 1 <= self.blocksize <= i32::MAX
    }

    /// The blocks of the file called `name`.
    pub open spec fn blocks_of(self, name: Seq<char>) -> Seq<Seq<u8>> {
        sblocks(self.files@, name)
    }

    /// The bytes of block `num` of file `name`: its tracked bytes, or a
    /// zero block past the file's end.
    pub open spec fn block_at(self, name: Seq<char>, num: int) -> Seq<u8> {
        if 0 <= num < self.blocks_of(name).len() {
            self.blocks_of(name)[num]
        } else {
            zero_block(self.blocksize as int)
        }
    }

    /// The configuration and journal are as before; only file contents may
    /// have changed.
    pub open spec fn same_config(self, other: FileMgr) -> bool {
        &&& self.db_directory@ == other.db_directory@
        &&& self.blocksize == other.blocksize
        &&& self.is_new == other.is_new
    }

    /// Every file except `name` holds the same blocks in `self` and
    /// `other`.
    pub open spec fn same_files_except(self, other: FileMgr, name: Seq<char>) -> bool {
        forall|n: Seq<char>| n != name ==> #[trigger] other.blocks_of(n) == self.blocks_of(n)
    }

    /// Builds the manager from a directory listing: every regular file's
    /// name and raw bytes, in any order without repeated names. Files whose
    /// names begin with the reserved temporary prefix are not taken over;
    /// their names are returned so the I/O layer can delete them. `is_new`
    /// reports whether the directory had to be created.
    pub fn new(db_directory: &str, blocksize: usize, is_new: bool, existing: Vec<(String, Vec<u8>)>)
        -> (r: (FileMgr, Vec<String>))
        requires
            1 <= blocksize <= i32::MAX,
            forall|i: int, j: int|
                0 <= i < existing@.len() && 0 <= j < existing@.len() && i != j
                    ==> existing@[i].0@ != existing@[j].0@,
        ensures
            r.0.wf(),
            r.0.db_directory@ == db_directory@,
            r.0.blocksize == blocksize,
            r.0.is_new == is_new,
            r.0.ops@.len() == 0,
            forall|i: int|
                0 <= i < existing@.len() && !is_temp_name(existing@[i].0@) ==> r.0.blocks_of(
                    #[trigger] existing@[i].0@,
                ) == chunk_bytes(existing@[i].1@, blocksize as int),
            forall|n: Seq<char>|
                (forall|i: int| 0 <= i < existing@.len() ==> existing@[i].0@ != n)
                    ==> #[trigger] r.0.blocks_of(n) == Seq::<Seq<u8>>::empty(),
            forall|i: int|
                0 <= i < existing@.len() && is_temp_name(existing@[i].0@) ==> r.0.blocks_of(
                    #[trigger] existing@[i].0@,
                ) == Seq::<Seq<u8>>::empty(),
            r.1@.map_values(|s: String| s@) == temp_entries(existing@).map_values(|e: (String, Vec<u8>)| e.0@),
    {
        let mut files: Vec<DbFile> = Vec::new();
        let mut purged: Vec<String> = Vec::new();
        let mut k: usize = 0;
        let n: usize = existing.len();
        while k < n
            invariant
                k <= n,
                n == existing@.len(),
                1 <= blocksize <= i32::MAX,
                forall|i: int, j: int|
                    0 <= i < existing@.len() && 0 <= j < existing@.len() && i != j
                        ==> existing@[i].0@ != existing@[j].0@,
                files@.len() == kept_entries(existing@.take(k as int)).len(),
                forall|i: int|
                    0 <= i < files@.len() ==> #[trigger] files@[i].name@ == kept_entries(
                        existing@.take(k as int),
                    )[i].0@ && files@[i].blocks.deep_view() == chunk_bytes(
                        kept_entries(existing@.take(k as int))[i].1@,
                        blocksize as int,
                    ),
                forall|i: int, j: int|
                    0 <= i < files@.len() && 0 <= j < files@[i].blocks@.len()
                        ==> #[trigger] files@[i].blocks@[j]@.len() == blocksize,
                purged@.map_values(|s: String| s@) =~= temp_entries(existing@.take(k as int)).map_values(|e: (String, Vec<u8>)| e.0@),
            decreases n - k,
        {
            proof {
                assert(existing@.take(k as int + 1).drop_last() =~= existing@.take(k as int));
            }
            let ghost pre_files = files@;
            let ghost pre_purged = purged@;
            let name: String = clone_string(&existing[k].0);
            let bytes: Vec<u8> = clone_bytes(&existing[k].1);
            if is_temp_file(name.as_str()) {
                purged.push(name);
                proof {
                    reveal(Seq::filter);
                    assert(kept_entries(existing@.take(k as int + 1)) =~= kept_entries(
                        existing@.take(k as int),
                    ));
                    assert(purged@.map_values(|s: String| s@) =~= pre_purged.map_values(
                        |s: String| s@,
                    ).push(existing@[k as int].0@));
                }
            } else {
                let blocks = chunk_file(&bytes, blocksize);
                files.push(DbFile { name, blocks });
                proof {
                    reveal(Seq::filter);
                    assert(kept_entries(existing@.take(k as int + 1)) =~= kept_entries(
                        existing@.take(k as int),
                    ).push(existing@[k as int]));
                    assert(purged@.map_values(|s: String| s@) =~= pre_purged.map_values(
                        |s: String| s@,
                    ));
                }
            }
            k = k + 1;
        }
        proof {
            assert(existing@.take(n as int) =~= existing@);
        }
        let fm = FileMgr {
            db_directory: db_directory.to_owned(),
            blocksize,
            is_new,
            files,
            ops: Vec::new(),
        };
        proof {
            lemma_listing_lookup(fm, existing@, k as int);
        }
        (fm, purged)
    }

    /// Fills `p` with the bytes of block `blk`; a block past the file's
    /// end, or of an unknown file, reads as all zeroes.
    pub fn read(&self, blk: &BlockId, p: &mut Page)
        requires
            self.wf(),
            old(p)@.len() == self.blocksize,
        ensures
            final(p)@ == self.block_at(blk.filename@, blk.blknum as int),
    {
        let idx = self.find_file(blk.filename());
        match idx {
            Some(i) => {
                let file = &self.files[i];
                if blk.blknum < file.blocks.len() as u64 {
                    let num: usize = blk.blknum as usize;
                    copy_into(&file.blocks[num], &mut p.bb);
                    proof {
                        lemma_sdx_is(self.files@, blk.filename@, i as int);
                    }
                } else {
                    zero_fill(&mut p.bb);
                    proof {
                        lemma_sdx_is(self.files@, blk.filename@, i as int);
                        assert(p@ =~= zero_block(self.blocksize as int));
                    }
                }
            },
            None => {
                zero_fill(&mut p.bb);
                proof {
                    assert(p@ =~= zero_block(self.blocksize as int));
                }
            },
        }
    }

    /// Writes `p`'s bytes as block `blk`, creating the file and any
    /// intervening zero blocks if needed, and journals the write.
    pub fn write(&mut self, blk: &BlockId, p: &Page)
        requires
            old(self).wf(),
            p@.len() == old(self).blocksize,
            blk.blknum <= usize::MAX as u64,
        ensures
            final(self).wf(),
            final(self).same_config(*old(self)),
            final(self).same_files_except(*old(self), blk.filename@),
            final(self).blocks_of(blk.filename@) == grow_update(
                old(self).blocks_of(blk.filename@),
                blk.blknum as int,
                p@,
                old(self).blocksize as int,
            ),
            final(self).ops@.len() == old(self).ops@.len() + 1,
            final(self).ops@.take(old(self).ops@.len() as int) == old(self).ops@,
            final(self).ops@.last().filename@ == blk.filename@,
            final(self).ops@.last().blknum == blk.blknum,
            final(self).ops@.last().bytes@ == p@,
    {
        let idx = self.configure_file_table(blk.filename());
        let ghost mid = *self;
        let ghost pre_blocks = mid.files@[idx as int].blocks.deep_view();
        let num: usize = blk.blknum as usize;
        let mut blocks: Vec<Vec<u8>> = Vec::new();
        core::mem::swap(&mut blocks, &mut self.files[idx].blocks);
        let ghost pre_vec = blocks@;
        proof {
            lemma_deep_view_points(&blocks);
        }
        while blocks.len() < num
            invariant
                pre_vec.len() <= blocks@.len(),
                blocks@.len() <= num || blocks@.len() == pre_vec.len(),
                forall|t: int| 0 <= t < pre_vec.len() ==> blocks@[t] == pre_vec[t],
                forall|t: int|
                    pre_vec.len() <= t < blocks@.len() ==> #[trigger] blocks@[t]@ == zero_block(
                        mid.blocksize as int,
                    ),
                mid.blocksize == self.blocksize,
            decreases num - blocks@.len(),
        {
            let zb: Vec<u8> = vec![0u8; self.blocksize];
            proof {
                assert(zb@ =~= zero_block(mid.blocksize as int));
            }
            blocks.push(zb);
        }
        let block_copy: Vec<u8> = clone_bytes(&p.bb);
        if blocks.len() == num {
            blocks.push(block_copy);
        } else {
            blocks[num] = block_copy;
        }
        let ghost built = blocks@;
        proof {
            lemma_deep_view_points(&blocks);
        }
        core::mem::swap(&mut blocks, &mut self.files[idx].blocks);
        self.ops.push(
            DiskOp { filename: blk.filename.clone(), blknum: blk.blknum, bytes: clone_bytes(&p.bb) },
        );
        proof {
            let name = blk.filename@;
            let files0 = mid.files@;
            let files1 = self.files@;
            assert(files1.len() == files0.len());
            assert(files1[idx as int].name@ == name);
            assert(files1[idx as int].blocks@ == built);
            assert(forall|t: int| 0 <= t < files1.len() && t != idx ==> files1[t] == files0[t]);
            assert forall|i: int, j: int|
                0 <= i < files1.len() && 0 <= j < files1.len() && i != j implies files1[i].name@
                != files1[j].name@ by {
                assert(files1[i].name@ == files0[i].name@);
                assert(files1[j].name@ == files0[j].name@);
            }
            lemma_sdx_is(files0, name, idx as int);
            lemma_sdx_is(files1, name, idx as int);
            assert(pre_blocks == old(self).blocks_of(name));
            assert(pre_blocks.len() == pre_vec.len()) by {
                lemma_deep_view_points(&mid.files@[idx as int].blocks);
            }
            assert forall|t: int| 0 <= t < pre_vec.len() implies pre_blocks[t] == pre_vec[t]@ by {
                lemma_deep_view_points(&mid.files@[idx as int].blocks);
            }
            assert(self.blocks_of(name) == files1[idx as int].blocks.deep_view());
            assert(self.blocks_of(name) =~= grow_update(
                old(self).blocks_of(name),
                blk.blknum as int,
                p@,
                old(self).blocksize as int,
            ));
            assert forall|n: Seq<char>| n != name implies #[trigger] self.blocks_of(n) == old(
                self,
            ).blocks_of(n) by {
                lemma_lookup_eq(files0, files1, n);
                assert(mid.blocks_of(n) == old(self).blocks_of(n));
            }
            assert forall|i2: int, j2: int|
                0 <= i2 < files1.len() && 0 <= j2 < files1[i2].blocks@.len() implies #[trigger] files1[i2].blocks@[j2]@.len() == mid.blocksize by {
                if i2 == idx {
                    assert(files1[i2].blocks@ == built);
                    if j2 < pre_vec.len() && j2 != num {
                        assert(built[j2] == pre_vec[j2]);
                        assert(mid.files@[idx as int].blocks@[j2]@.len() == mid.blocksize);
                    }
                } else {
                    assert(files1[i2] == files0[i2]);
                    assert(mid.files@[i2].blocks@[j2]@.len() == mid.blocksize);
                }
            }
            assert(self.ops@.take(old(self).ops@.len() as int) =~= old(self).ops@);
        }
    }

    /// Creates a new zero-filled block at the end of the file and returns
    /// its identifier; this is the only way files gain blocks other than
    /// direct writes.
    pub fn append(&mut self, filename: &str) -> (r: BlockId)
        requires
            old(self).wf(),
        ensures
            final(self).wf(),
            final(self).same_config(*old(self)),
            final(self).same_files_except(*old(self), filename@),
            r.filename@ == filename@,
            r.blknum == old(self).blocks_of(filename@).len(),
            final(self).blocks_of(filename@) == old(self).blocks_of(filename@).push(
                zero_block(old(self).blocksize as int),
            ),
            final(self).ops@.len() == old(self).ops@.len() + 1,
            final(self).ops@.take(old(self).ops@.len() as int) == old(self).ops@,
            final(self).ops@.last().filename@ == filename@,
            final(self).ops@.last().blknum == r.blknum,
            final(self).ops@.last().bytes@ == zero_block(old(self).blocksize as int),
    {
        let newblknum: u64 = self.length(filename);
        let blk = BlockId::new(filename, newblknum);
        let zp = Page::new_from_size(self.blocksize);
        proof {
            assert(zp@ =~= zero_block(self.blocksize as int));
        }
        self.write(&blk, &zp);
        proof {
            assert(self.blocks_of(filename@) =~= old(self).blocks_of(filename@).push(
                zero_block(old(self).blocksize as int),
            ));
            assert(self.ops@.take(old(self).ops@.len() as int) =~= old(self).ops@);
        }
        blk
    }

    /// The number of blocks of file `filename`; zero for a file that does
    /// not exist yet.
    pub fn length(&self, filename: &str) -> (r: u64)
        requires
            self.wf(),
        ensures
            r == self.blocks_of(filename@).len(),
            r <= usize::MAX as u64,
    {
        match self.find_file(filename) {
            Some(i) => {
                proof {
                    lemma_sdx_is(self.files@, filename@, i as int);
                }
                self.files[i].blocks.len() as u64
            },
            None => 0,
        }
    }

    /// Ensures a (possibly empty) file of this name is tracked and returns
    /// its index.
    pub fn configure_file_table(&mut self, filename: &str) -> (idx: usize)
        requires
            old(self).wf(),
        ensures
            final(self).wf(),
            final(self).same_config(*old(self)),
            final(self).ops@ == old(self).ops@,
            idx < final(self).files@.len(),
            final(self).files@[idx as int].name@ == filename@,
            old(self).blocks_of(filename@) == final(self).files@[idx as int].blocks.deep_view(),
            final(self).same_files_except(*old(self), filename@),
            final(self).blocks_of(filename@) == old(self).blocks_of(filename@),
            final(self).files@.len() == old(self).files@.len() || final(self).files@ == old(
                self,
            ).files@.push(final(self).files@.last()),
            shas(old(self).files@, filename@) ==> final(self).files@ == old(self).files@,
    {
        match self.find_file(filename) {
            Some(i) => {
                proof {
                    lemma_sdx_is(self.files@, filename@, i as int);
                }
                i
            },
            None => {
                let idx = self.files.len();
                self.files.push(DbFile { name: filename.to_owned(), blocks: Vec::new() });
                proof {
                    lemma_sdx_is(self.files@, filename@, idx as int);
                    assert(self.files@[idx as int].blocks.deep_view() =~= Seq::<Seq<u8>>::empty());
                    assert forall|n: Seq<char>| n != filename@ implies #[trigger] self.blocks_of(n)
                        == old(self).blocks_of(n) by {
                        lemma_lookup_eq(old(self).files@, self.files@, n);
                    }
                }
                idx
            },
        }
    }

    /// The fixed block size.
    pub fn blocksize(&self) -> (r: usize)
        ensures
            r == self.blocksize,
    {
        self.blocksize
    }

    /// Whether the database directory had to be created for this run.
    pub fn is_new(&self) -> (r: bool)
        ensures
            r == self.is_new,
    {
        self.is_new
    }

    /// Hands the journalled block writes to the I/O layer, oldest first,
    /// and empties the journal.
    pub fn take_ops(&mut self) -> (r: Vec<DiskOp>)
        ensures
            r@ == old(self).ops@,
            final(self).ops@.len() == 0,
            final(self).files@ == old(self).files@,
            final(self).same_config(*old(self)),
    {
        let mut out: Vec<DiskOp> = Vec::new();
        core::mem::swap(&mut out, &mut self.ops);
        out
    }

    /// The index of the file called `filename`, if one is tracked.
    fn find_file(&self, filename: &str) -> (r: Option<usize>)
        ensures
            r is Some ==> r->0 < self.files@.len() && self.files@[r->0 as int].name@ == filename@,
            r is None ==> !shas(self.files@, filename@),
    {
        let mut i: usize = 0;
        let n: usize = self.files.len();
        while i < n
            invariant
                i <= n,
                n == self.files@.len(),
                forall|j: int| 0 <= j < i ==> self.files@[j].name@ != filename@,
            decreases n - i,
        {
            if str_eq(self.files[i].name.as_str(), filename) {
                return Some(i);
            }
            i = i + 1;
        }
        None
    }
}

/// Every tracked block of a well-formed manager is one block long, and a
/// file's block count fits the machine's word.
pub proof fn lemma_blocks_of_props(fm: FileMgr, name: Seq<char>)
    requires
        fm.wf(),
    ensures
        fm.blocks_of(name).len() <= usize::MAX,
        forall|j: int|
            0 <= j < fm.blocks_of(name).len() ==> #[trigger] fm.blocks_of(name)[j].len()
                == fm.blocksize,
{
    if shas(fm.files@, name) {
        lemma_sdx_props(fm.files@, name);
        let i = sdx(fm.files@, name);
        lemma_deep_view_points(&fm.files@[i].blocks);
        vstd::std_specs::vec::axiom_spec_len(&fm.files@[i].blocks);
        assert forall|j: int| 0 <= j < fm.blocks_of(name).len() implies #[trigger] fm.blocks_of(
            name,
        )[j].len() == fm.blocksize by {
            assert(fm.files@[i].blocks@[j]@.len() == fm.blocksize);
        }
    }
}

/// When names are unique and index `idx` holds `name`, the looked-up index
/// is `idx` itself.
proof fn lemma_sdx_is(files: Seq<DbFile>, name: Seq<char>, idx: int)
    requires
        names_unique(files),
        0 <= idx < files.len(),
        files[idx].name@ == name,
    ensures
        shas(files, name),
        sdx(files, name) == idx,
{
    assert(shas(files, name));
    lemma_sdx_props(files, name);
}

/// The looked-up index of a present name lies in range and carries that
/// name.
proof fn lemma_sdx_props(files: Seq<DbFile>, name: Seq<char>)
    requires
        shas(files, name),
    ensures
        0 <= sdx(files, name) < files.len(),
        files[sdx(files, name)].name@ == name,
{
    let i = choose|i: int| 0 <= i < files.len() && files[i].name@ == name;
    assert(files[i].name@ == name);
}

/// Two file tables that agree on which entries hold `n` and on those
/// entries' blocks look the same to a lookup of `n`.
proof fn lemma_lookup_eq(files0: Seq<DbFile>, files1: Seq<DbFile>, n: Seq<char>)
    requires
        names_unique(files0),
        forall|i: int|
            0 <= i < files0.len() && #[trigger] files0[i].name@ == n ==> i < files1.len()
                && files1[i].name@ == n && files0[i].blocks.deep_view()
                == files1[i].blocks.deep_view(),
        forall|i: int|
            0 <= i < files1.len() && #[trigger] files1[i].name@ == n ==> i < files0.len()
                && files0[i].name@ == n && files1[i].blocks.deep_view()
                == files0[i].blocks.deep_view(),
    ensures
        sblocks(files0, n) == sblocks(files1, n),
{
    if shas(files0, n) {
        lemma_sdx_props(files0, n);
        let i = sdx(files0, n);
        assert(files1[i].name@ == n);
        assert(shas(files1, n));
        lemma_sdx_props(files1, n);
        let j = sdx(files1, n);
        assert(files0[j].name@ == n);
        assert(i == j);
        assert(files0[i].blocks.deep_view() == files1[i].blocks.deep_view());
    } else if shas(files1, n) {
        lemma_sdx_props(files1, n);
        let i = sdx(files1, n);
        assert(files0[i].name@ == n);
        assert(shas(files0, n));
    }
}

/// After the construction loop, looking a name up in the table finds
/// exactly the chunked contents the listing gave for it.
proof fn lemma_listing_lookup(fm: FileMgr, existing: Seq<(String, Vec<u8>)>, k: int)
    requires
        k == existing.len(),
        forall|i: int, j: int|
            0 <= i < existing.len() && 0 <= j < existing.len() && i != j ==> existing[i].0@
                != existing[j].0@,
        fm.files@.len() == kept_entries(existing).len(),
        forall|i: int|
            0 <= i < fm.files@.len() ==> #[trigger] fm.files@[i].name@ == kept_entries(
                existing,
            )[i].0@ && fm.files@[i].blocks.deep_view() == chunk_bytes(
                kept_entries(existing)[i].1@,
                fm.blocksize as int,
            ),
    ensures
        names_unique(fm.files@),
        forall|i: int|
            0 <= i < existing.len() && !is_temp_name(existing[i].0@) ==> fm.blocks_of(
                #[trigger] existing[i].0@,
            ) == chunk_bytes(existing[i].1@, fm.blocksize as int),
        forall|n: Seq<char>|
            (forall|i: int| 0 <= i < existing.len() ==> existing[i].0@ != n)
                ==> #[trigger] fm.blocks_of(n) == Seq::<Seq<u8>>::empty(),
        forall|i: int|
            0 <= i < existing.len() && is_temp_name(existing[i].0@) ==> fm.blocks_of(
                #[trigger] existing[i].0@,
            ) == Seq::<Seq<u8>>::empty(),
{
    let kept = kept_entries(existing);
    lemma_filter_names_unique(existing);
    assert forall|i: int, j: int|
        0 <= i < fm.files@.len() && 0 <= j < fm.files@.len() && i != j implies fm.files@[i].name@
        != fm.files@[j].name@ by {
        assert(fm.files@[i].name@ == kept[i].0@);
        assert(fm.files@[j].name@ == kept[j].0@);
    }
    assert forall|i: int|
        0 <= i < existing.len() && !is_temp_name(existing[i].0@) implies fm.blocks_of(
        #[trigger] existing[i].0@,
    ) == chunk_bytes(existing[i].1@, fm.blocksize as int) by {
        lemma_filter_contains(existing, i);
        let p = choose|p: int| 0 <= p < kept.len() && kept[p] == existing[i];
        assert(fm.files@[p].name@ == existing[i].0@);
        lemma_sdx_is(fm.files@, existing[i].0@, p);
        assert(fm.files@[p].blocks.deep_view() == chunk_bytes(kept[p].1@, fm.blocksize as int));
    }
    assert forall|n: Seq<char>|
        (forall|i: int| 0 <= i < existing.len() ==> existing[i].0@ != n) implies #[trigger] fm
        .blocks_of(n) == Seq::<Seq<u8>>::empty() by {
        if shas(fm.files@, n) {
            lemma_sdx_props(fm.files@, n);
            let p = sdx(fm.files@, n);
            assert(kept[p].0@ == n);
            lemma_filter_source(existing, p);
            let a = choose|a: int| 0 <= a < existing.len() && existing[a] == kept[p];
            assert(existing[a].0@ == n);
        }
    }
    assert forall|i: int|
        0 <= i < existing.len() && is_temp_name(existing[i].0@) implies fm.blocks_of(
        #[trigger] existing[i].0@,
    ) == Seq::<Seq<u8>>::empty() by {
        if shas(fm.files@, existing[i].0@) {
            lemma_sdx_props(fm.files@, existing[i].0@);
            let p = sdx(fm.files@, existing[i].0@);
            assert(kept[p].0@ == existing[i].0@);
            lemma_filter_member(existing, p);
            lemma_filter_source(existing, p);
            let a = choose|a: int| 0 <= a < existing.len() && existing[a] == kept[p];
            assert(existing[a].0@ == existing[i].0@);
            assert(a == i);
        }
    }
}

/// A filtered element stands somewhere in the filtered sequence.
proof fn lemma_filter_contains(existing: Seq<(String, Vec<u8>)>, i: int)
    requires
        0 <= i < existing.len(),
        !is_temp_name(existing[i].0@),
    ensures
        exists|p: int|
            0 <= p < kept_entries(existing).len()
                && kept_entries(existing)[p] == existing[i],
    decreases existing.len(),
{
    reveal(Seq::filter);
    let kept = kept_entries(existing);
    if existing.len() > 0 {
        if i == existing.len() - 1 {
            assert(kept.last() == existing[i]);
        } else {
            lemma_filter_contains(existing.drop_last(), i);
            let prev = kept_entries(existing.drop_last());
            let p = choose|p: int| 0 <= p < prev.len() && prev[p] == existing[i];
            assert(kept[p] == existing[i]);
        }
    }
}

/// Every element of the filtered sequence passes the filter and stems from
/// the source sequence.
proof fn lemma_filter_member(existing: Seq<(String, Vec<u8>)>, p: int)
    requires
        0 <= p < kept_entries(existing).len(),
    ensures
        !is_temp_name(kept_entries(existing)[p].0@),
    decreases existing.len(),
{
    reveal(Seq::filter);
    let kept = kept_entries(existing);
    if existing.len() > 0 {
        if p < kept_entries(existing.drop_last()).len() {
            lemma_filter_member(existing.drop_last(), p);
        }
    }
}

/// A filtered element stems from some source position.
proof fn lemma_filter_source(existing: Seq<(String, Vec<u8>)>, p: int)
    requires
        0 <= p < kept_entries(existing).len(),
    ensures
        exists|a: int|
            0 <= a < existing.len() && existing[a] == existing.filter(
                |e: (String, Vec<u8>)| !is_temp_name(e.0@),
            )[p],
    decreases existing.len(),
{
    reveal(Seq::filter);
    if existing.len() > 0 {
        let kept = kept_entries(existing);
        let prev = kept_entries(existing.drop_last());
        if p < prev.len() {
            lemma_filter_source(existing.drop_last(), p);
            let a = choose|a: int|
                0 <= a < existing.drop_last().len() && existing.drop_last()[a] == prev[p];
            assert(existing[a] == kept[p]);
        } else {
            assert(existing[existing.len() - 1] == kept[p]);
        }
    }
}

/// Filtering a listing whose names repeat nowhere keeps the names unique.
proof fn lemma_filter_names_unique(existing: Seq<(String, Vec<u8>)>)
    requires
        forall|a: int, b: int|
            0 <= a < existing.len() && 0 <= b < existing.len() && a != b ==> existing[a].0@
                != existing[b].0@,
    ensures
        forall|i: int, j: int|
            #![trigger kept_entries(existing)[i],
                kept_entries(existing)[j]]
            0 <= i < kept_entries(existing).len() && 0 <= j
                < kept_entries(existing).len() && i != j
                ==> kept_entries(existing)[i].0@
                != kept_entries(existing)[j].0@,
    decreases existing.len(),
{
    reveal(Seq::filter);
    let kept = kept_entries(existing);
    if existing.len() > 0 {
        let prev = kept_entries(existing.drop_last());
        lemma_filter_names_unique(existing.drop_last());
        assert forall|i: int, j: int|
            0 <= i < kept.len() && 0 <= j < kept.len() && i != j implies #[trigger] kept[i].0@
            != #[trigger] kept[j].0@ by {
            if i < prev.len() && j < prev.len() {
                assert(kept[i] == prev[i] && kept[j] == prev[j]);
            } else {
                let lo = if i < j {
                    i
                } else {
                    j
                };
                let hi = if i < j {
                    j
                } else {
                    i
                };
                assert(hi == prev.len() && kept[hi] == existing.last());
                lemma_filter_source(existing.drop_last(), lo);
                let a = choose|a: int|
                    0 <= a < existing.drop_last().len() && existing.drop_last()[a] == prev[lo];
                assert(kept[lo] == prev[lo]);
                assert(existing[a].0@ != existing[existing.len() - 1].0@);
            }
        }
    }
}

/// Whether a file name begins with the reserved temporary prefix.
fn is_temp_file(filename: &str) -> (r: bool)
    ensures
        r == is_temp_name(filename@),
{
    let n: usize = filename.unicode_len();
    if n < 4 {
        return false;
    }
    let c0: char = filename.get_char(0);
    let c1: char = filename.get_char(1);
    let c2: char = filename.get_char(2);
    let c3: char = filename.get_char(3);
    c0 == 't' && c1 == 'e' && c2 == 'm' && c3 == 'p'
}

/// Whether two string slices hold the same characters.
fn str_eq(a: &str, b: &str) -> (r: bool)
    ensures
        r == (a@ == b@),
{
    let sa: String = a.to_owned();
    let sb: String = b.to_owned();
    sa == sb
}

/// `bytes` cut into zero-padded blocks of `bs` bytes each.
fn chunk_file(bytes: &Vec<u8>, bs: usize) -> (blocks: Vec<Vec<u8>>)
    requires
        1 <= bs,
    ensures
        blocks.deep_view() == chunk_bytes(bytes@, bs as int),
        forall|j: int| 0 <= j < blocks@.len() ==> #[trigger] blocks@[j]@.len() == bs,
{
    let mut blocks: Vec<Vec<u8>> = Vec::new();
    let mut pos: usize = 0;
    let n: usize = bytes.len();
    proof {
        assert(bytes@.skip(0) =~= bytes@);
        assert(blocks.deep_view() =~= Seq::<Seq<u8>>::empty());
    }
    while pos < n
        invariant
            pos <= n,
            n == bytes@.len(),
            1 <= bs,
            chunk_bytes(bytes@, bs as int) =~= blocks.deep_view() + chunk_bytes(
                bytes@.skip(pos as int),
                bs as int,
            ),
            forall|j: int| 0 <= j < blocks@.len() ==> #[trigger] blocks@[j]@.len() == bs,
        decreases n - pos,
    {
        let ghost pre = blocks.deep_view();
        proof {
            lemma_deep_view_points(&blocks);
        }
        let mut block: Vec<u8> = Vec::new();
        let mut i: usize = 0;
        while i < bs
            invariant
                i <= bs,
                pos < n,
                n == bytes@.len(),
                block@.len() == i,
                block@ =~= if pos + i <= n {
                    bytes@.subrange(pos as int, pos + i)
                } else if pos as int <= n {
                    bytes@.skip(pos as int) + zero_block(pos + i - n)
                } else {
                    zero_block(i as int)
                },
            decreases bs - i,
        {
            if i < n - pos {
                block.push(bytes[pos + i]);
            } else {
                block.push(0u8);
            }
            i = i + 1;
        }
        blocks.push(block);
        proof {
            lemma_deep_view_points(&blocks);
            let rest = bytes@.skip(pos as int);
            if rest.len() >= bs {
                assert(block@ =~= rest.take(bs as int));
                assert(rest.skip(bs as int) =~= bytes@.skip(pos as int + bs as int));
            } else {
                assert(block@ =~= rest + zero_block(bs - rest.len()));
            }
            assert(blocks.deep_view() =~= pre.push(block@));
            let next_pos: int = if pos + bs <= n {
                pos + bs
            } else {
                n as int
            };
            assert(chunk_bytes(bytes@, bs as int) =~= blocks.deep_view() + chunk_bytes(
                bytes@.skip(next_pos),
                bs as int,
            ));
        }
        if bs <= n - pos {
            pos = pos + bs;
        } else {
            pos = n;
        }
    }
    proof {
        assert(bytes@.skip(n as int) =~= Seq::<u8>::empty());
        assert(chunk_bytes(bytes@, bs as int) =~= blocks.deep_view());
    }
    blocks
}

/// A by-value copy of a byte vector.
fn clone_bytes(v: &Vec<u8>) -> (r: Vec<u8>)
    ensures
        r@ == v@,
{
    let mut out: Vec<u8> = Vec::new();
    let mut i: usize = 0;
    let n: usize = v.len();
    while i < n
        invariant
            i <= n,
            n == v@.len(),
            out@ =~= v@.take(i as int),
        decreases n - i,
    {
        out.push(v[i]);
        i = i + 1;
    }
    proof {
        assert(v@.take(n as int) =~= v@);
    }
    out
}

/// Overwrites `dst` with the bytes of `src`, which must have equal length.
fn copy_into(src: &Vec<u8>, dst: &mut Vec<u8>)
    requires
        src@.len() == old(dst)@.len(),
    ensures
        final(dst)@ == src@,
{
    let mut i: usize = 0;
    let n: usize = src.len();
    while i < n
        invariant
            i <= n,
            n == src@.len(),
            dst@.len() == src@.len(),
            forall|j: int| 0 <= j < i ==> dst@[j] == src@[j],
        decreases n - i,
    {
        dst[i] = src[i];
        i = i + 1;
    }
    proof {
        assert(dst@ =~= src@);
    }
}

/// Zero-fills `dst`.
fn zero_fill(dst: &mut Vec<u8>)
    ensures
        final(dst)@.len() == old(dst)@.len(),
        forall|j: int| 0 <= j < final(dst)@.len() ==> final(dst)@[j] == 0u8,
{
    let mut i: usize = 0;
    let n: usize = dst.len();
    while i < n
        invariant
            i <= n,
            n == dst@.len(),
            forall|j: int| 0 <= j < i ==> dst@[j] == 0u8,
        decreases n - i,
    {
        dst[i] = 0u8;
        i = i + 1;
    }
}

/// A by-value copy of a string.
fn clone_string(s: &String) -> (r: String)
    ensures
        r@ == s@,
{
    s.as_str().to_owned()
}

} // verus!
