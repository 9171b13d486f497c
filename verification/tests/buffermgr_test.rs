use simple_db::blockid::BlockId;
use simple_db::buffermanager::{BufferMgr, BufferMgrError};
use simple_db::filemanager::FileMgr;
use simple_db::logmanager::LogMgr;

#[test]
fn buffermgr_test() {
    let (mut fm, _) = FileMgr::new("./buffertests", 400, true, Vec::new());
    let mut lm = LogMgr::new(&mut fm, String::from("bufferfile")).unwrap();
    let mut bm = BufferMgr::new(&fm, &lm, 3);
    // Pinning blocks of the file that also backs the log falls outside
    // the pool's verified precondition (the log file is reserved for the
    // log manager); it still runs correctly here because these buffers
    // are never modified, so nothing is ever flushed over a log block.

    println!("Available buffers: {}", bm.available());

    // pos: 0, buffer: 0
    let n0 = bm.pin(&mut fm, &mut lm, &BlockId::new("bufferfile", 0)).unwrap();

    // pos: 1, buffer: 1
    let n1 = bm.pin(&mut fm, &mut lm, &BlockId::new("bufferfile", 1)).unwrap();

    // pos: 2, buffer: 2
    let n2 = bm.pin(&mut fm, &mut lm, &BlockId::new("bufferfile", 2)).unwrap();

    // pos: 1, buffer: none
    bm.unpin(n1);

    // pos: 0, buffer: 0
    let _n3 = bm.pin(&mut fm, &mut lm, &BlockId::new("bufferfile", 0)).unwrap();

    // pos: 1, buffer: 1
    let n4 = bm.pin(&mut fm, &mut lm, &BlockId::new("bufferfile", 1)).unwrap();

    // pos: buffer
    //   0:      0
    //   1:      1
    //   2:      2
    println!("Available buffers: {}", bm.available());
    println!("Attempting to pin block 3...");
    match bm.pin(&mut fm, &mut lm, &BlockId::new("bufferfile", 3)) {
        Ok(_) => {}
        Err(e) => {
            println!("Exception: No available buffers. {:?}", e);
        }
    };

    // pos: 2, buffer: none
    bm.unpin(n2);

    // pos: buffer
    //   0:      0
    //   1:      1
    //   2:      3
    let n5 = bm.pin(&mut fm, &mut lm, &BlockId::new("bufferfile", 3)).unwrap();

    println!("Final Buffer Allocation");

    assert_eq!(bm.buffer(n0).block().unwrap().number(), 0);
    assert_eq!(bm.buffer(n4).block().unwrap().number(), 1);
    assert_eq!(bm.buffer(n5).block().unwrap().number(), 3);
}

#[test]
fn pool_capacity_is_enforced() {
    let (mut fm, _) = FileMgr::new("./capacity", 400, true, Vec::new());
    let mut lm = LogMgr::new(&mut fm, String::from("caplog")).unwrap();
    let mut bm = BufferMgr::new(&fm, &lm, 2);

    // two distinct blocks fill the pool of size two
    let a = bm.pin(&mut fm, &mut lm, &BlockId::new("data", 0)).unwrap();
    let _b = bm.pin(&mut fm, &mut lm, &BlockId::new("data", 1)).unwrap();
    assert_eq!(0, bm.available());

    // a third distinct block finds no slot
    assert_eq!(
        Err(BufferMgrError::BufferAbort),
        bm.pin(&mut fm, &mut lm, &BlockId::new("data", 2))
    );

    // releasing one slot lets the refused block in
    bm.unpin(a);
    assert_eq!(1, bm.available());
    let c = bm.pin(&mut fm, &mut lm, &BlockId::new("data", 2)).unwrap();
    assert_eq!(a, c);
    assert_eq!(0, bm.available());
}

#[test]
fn pinning_a_resident_block_reuses_its_slot() {
    let (mut fm, _) = FileMgr::new("./reuse", 400, true, Vec::new());
    let mut lm = LogMgr::new(&mut fm, String::from("reuselog")).unwrap();
    let mut bm = BufferMgr::new(&fm, &lm, 3);

    let i = bm.pin(&mut fm, &mut lm, &BlockId::new("data", 5)).unwrap();
    assert_eq!(2, bm.available());
    let j = bm.pin(&mut fm, &mut lm, &BlockId::new("data", 5)).unwrap();
    // same slot, no second slot consumed, both pins counted
    assert_eq!(i, j);
    assert_eq!(2, bm.available());
    bm.unpin(i);
    assert_eq!(2, bm.available());
    bm.unpin(i);
    assert_eq!(3, bm.available());
}

#[test]
fn modified_buffer_reaches_disk_after_flush_all() {
    let (mut fm, _) = FileMgr::new("./flushall", 400, true, Vec::new());
    let mut lm = LogMgr::new(&mut fm, String::from("flushlog")).unwrap();
    let mut bm = BufferMgr::new(&fm, &lm, 2);

    let idx = bm.pin(&mut fm, &mut lm, &BlockId::new("data", 0)).unwrap();
    let lsn = lm.append(&mut fm, &b"change".to_vec()).unwrap();
    bm.buffer_mut(idx).contents().set_int(80, 4242).unwrap();
    bm.set_modified(idx, 1, lsn as i32);
    assert_eq!(1, bm.buffer(idx).modifying_tx());

    fm.take_ops();
    bm.flush_all(&mut fm, &mut lm, 1);
    assert_eq!(-1, bm.buffer(idx).modifying_tx());

    // the data block now carries the change
    let mut p = simple_db::page::Page::new_from_size(fm.blocksize());
    fm.read(&BlockId::new("data", 0), &mut p);
    assert_eq!(4242, p.get_int(80).unwrap());

    // the journal shows the log write strictly before the data write
    let ops = fm.take_ops();
    assert_eq!(2, ops.len());
    assert_eq!("flushlog", ops[0].filename);
    assert_eq!("data", ops[1].filename);
}
