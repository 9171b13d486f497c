use simple_db::blockid::BlockId;
use simple_db::buffer::Buffer;
use simple_db::filemanager::FileMgr;
use simple_db::logmanager::LogMgr;
use simple_db::page::Page;

#[test]
fn buffer_lifecycle() {
    let (mut fm, _) = FileMgr::new("./buflife", 400, true, Vec::new());
    let mut lm = LogMgr::new(&mut fm, String::from("blog")).unwrap();

    let mut b = Buffer::new(&fm);
    assert!(b.block().is_none());
    assert!(!b.is_pinned());
    assert_eq!(-1, b.modifying_tx());

    b.assign_to_block(&mut fm, &mut lm, BlockId::new("data", 4));
    assert_eq!(4, b.block().unwrap().number());
    assert_eq!("data", b.block().unwrap().filename());

    b.pin();
    assert!(b.is_pinned());

    b.contents().set_int(0, 123).unwrap();
    let lsn = lm.append(&mut fm, &b"u".to_vec()).unwrap();
    b.set_modified(3, lsn as i32);
    assert_eq!(3, b.modifying_tx());

    b.flush(&mut fm, &mut lm);
    assert_eq!(-1, b.modifying_tx());

    // the tracked block now carries the change
    let mut p = Page::new_from_size(fm.blocksize());
    fm.read(&BlockId::new("data", 4), &mut p);
    assert_eq!(123, p.get_int(0).unwrap());

    b.unpin();
    assert!(!b.is_pinned());

    // reassignment loads the new block's bytes
    b.assign_to_block(&mut fm, &mut lm, BlockId::new("data", 0));
    assert_eq!(0, b.block().unwrap().number());
    assert_eq!(0, b.contents().get_int(0).unwrap());
}

#[test]
fn set_modified_keeps_the_lsn_on_a_negative_argument() {
    let (mut fm, _) = FileMgr::new("./buflsn", 400, true, Vec::new());
    let mut lm = LogMgr::new(&mut fm, String::from("blog")).unwrap();
    let mut b = Buffer::new(&fm);
    b.assign_to_block(&mut fm, &mut lm, BlockId::new("data", 0));
    b.set_modified(1, 5);
    assert_eq!(5, b.lsn);
    b.set_modified(2, -1);
    assert_eq!(5, b.lsn);
    assert_eq!(2, b.modifying_tx());
}
