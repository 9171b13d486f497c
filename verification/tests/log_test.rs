use simple_db::filemanager::FileMgr;
use simple_db::logmanager::{LogError, LogMgr};
use simple_db::page::Page;

#[test]
fn log_test() {
    let (mut fm, _) = FileMgr::new("./logtests", 400, true, Vec::new());
    let mut lm = LogMgr::new(&mut fm, String::from("logfile")).unwrap();
    create_records(&mut lm, &mut fm, 1, 35);
    print_log_record(
        &mut lm,
        &mut fm,
        String::from("The log file now has these records:"),
    );
}

fn print_log_record(lm: &mut LogMgr, fm: &mut FileMgr, msg: String) {
    println!("{}", msg);

    let mut expected: u64 = 35;
    let mut it = lm.iterator(fm);
    while it.has_next(fm) {
        let rec = it.next(fm).unwrap();
        let p = Page::new_from_bytes(rec);
        let s = p.get_string(0).unwrap();
        let npos = Page::max_length(s.len());
        let val = p.get_int(npos).unwrap();
        println!("[{}, {}]", s, val);
        // strict reverse chronological order
        assert_eq!(format!("record{}", expected), s);
        assert_eq!((expected + 100) as i32, val);
        expected -= 1;
    }
    assert_eq!(0, expected);
    println!();
}

fn create_records(lm: &mut LogMgr, fm: &mut FileMgr, start: u64, end: u64) {
    for i in start..end + 1 {
        let mut page = create_log_record(format!("record{}", i), i + 100);
        let lsn = lm.append(fm, page.contents()).unwrap();
        assert_eq!(i, lsn);
        println!("{} ", lsn);
    }
    println!();
}

fn create_log_record(s: String, n: u64) -> Page {
    let npos = Page::max_length(s.len());
    let mut p = Page::new_from_size(npos + 4);
    p.set_string(0, s).unwrap();
    p.set_int(npos, n as i32).unwrap();

    p
}

#[test]
fn three_records_reverse_order() {
    let (mut fm, _) = FileMgr::new("./logscenario", 400, true, Vec::new());
    let mut lm = LogMgr::new(&mut fm, String::from("scenariolog")).unwrap();

    assert_eq!(1, lm.append(&mut fm, &b"record1".to_vec()).unwrap());
    assert_eq!(2, lm.append(&mut fm, &b"record2".to_vec()).unwrap());
    assert_eq!(3, lm.append(&mut fm, &b"record3".to_vec()).unwrap());

    lm.flush_from_lsn(&mut fm, 2);

    let mut it = lm.iterator(&mut fm);
    let mut seen: Vec<Vec<u8>> = Vec::new();
    while it.has_next(&fm) {
        seen.push(it.next(&fm).unwrap());
    }
    assert_eq!(
        vec![b"record3".to_vec(), b"record2".to_vec(), b"record1".to_vec()],
        seen
    );
    assert!(it.next(&fm).is_none());
}

#[test]
fn records_spanning_several_blocks_come_back_reversed() {
    // a small block size forces the log across many blocks
    let (mut fm, _) = FileMgr::new("./logspan", 32, true, Vec::new());
    let mut lm = LogMgr::new(&mut fm, String::from("spanlog")).unwrap();
    for i in 0u8..20 {
        let rec = vec![i; 10];
        lm.append(&mut fm, &rec).unwrap();
    }
    assert!(fm.length("spanlog") > 1);
    let mut it = lm.iterator(&mut fm);
    for i in (0u8..20).rev() {
        assert!(it.has_next(&fm));
        assert_eq!(vec![i; 10], it.next(&fm).unwrap());
    }
    assert!(!it.has_next(&fm));
}

#[test]
fn oversized_record_is_refused() {
    let (mut fm, _) = FileMgr::new("./logbig", 32, true, Vec::new());
    let mut lm = LogMgr::new(&mut fm, String::from("biglog")).unwrap();
    // 24 + 8 == 32 still fits; 25 + 8 > 32 does not
    assert!(lm.append(&mut fm, &vec![7u8; 24]).is_ok());
    assert_eq!(
        Err(LogError::RecordTooLarge),
        lm.append(&mut fm, &vec![7u8; 25])
    );
}

#[test]
fn reopening_an_existing_log_yields_its_records() {
    // first run: write three records and flush them
    let first_block = {
        let (mut fm, _) = FileMgr::new("./logreopen", 64, true, Vec::new());
        let mut lm = LogMgr::new(&mut fm, String::from("relog")).unwrap();
        lm.append(&mut fm, &b"alpha".to_vec()).unwrap();
        lm.append(&mut fm, &b"beta".to_vec()).unwrap();
        lm.flush_from_lsn(&mut fm, 2);
        let mut p = Page::new_from_size(fm.blocksize());
        fm.read(&simple_db::blockid::BlockId::new("relog", 0), &mut p);
        p.contents().clone()
    };
    // second run: the log file's bytes come back from disk
    let (mut fm, _) = FileMgr::new(
        "./logreopen",
        64,
        false,
        vec![(String::from("relog"), first_block)],
    );
    let mut lm = LogMgr::new(&mut fm, String::from("relog")).unwrap();
    let mut it = lm.iterator(&mut fm);
    assert_eq!(b"beta".to_vec(), it.next(&fm).unwrap());
    assert_eq!(b"alpha".to_vec(), it.next(&fm).unwrap());
    assert!(it.next(&fm).is_none());
}

#[test]
fn flush_from_lsn_controls_durability() {
    let (mut fm, _) = FileMgr::new("./logdurable", 400, true, Vec::new());
    let mut lm = LogMgr::new(&mut fm, String::from("dlog")).unwrap();
    lm.append(&mut fm, &b"one".to_vec()).unwrap();
    lm.append(&mut fm, &b"two".to_vec()).unwrap();
    lm.append(&mut fm, &b"three".to_vec()).unwrap();
    fm.take_ops();

    // already saved at least this far: nothing to write
    lm.flush_from_lsn(&mut fm, 0);
    assert_eq!(0, fm.take_ops().len());
    assert_eq!(0, lm.lastsaved_lsn);

    // an unsaved sequence number forces the tail block out
    lm.flush_from_lsn(&mut fm, 2);
    let ops = fm.take_ops();
    assert_eq!(1, ops.len());
    assert_eq!("dlog", ops[0].filename);
    assert_eq!(3, lm.lastsaved_lsn);

    // and a second request for the same number is a no-op
    lm.flush_from_lsn(&mut fm, 2);
    assert_eq!(0, fm.take_ops().len());
}

#[test]
fn a_corrupt_log_file_is_refused() {
    // boundary of 3 lies inside the header: not a log block
    let mut bad = vec![0u8; 64];
    bad[3] = 3;
    let (mut fm, _) = FileMgr::new(
        "./logcorrupt",
        64,
        false,
        vec![(String::from("badlog"), bad)],
    );
    assert!(matches!(
        LogMgr::new(&mut fm, String::from("badlog")),
        Err(LogError::CorruptLog)
    ));
}
