use simple_db::blockid::BlockId;
use simple_db::filemanager::FileMgr;
use simple_db::logmanager::LogMgr;
use simple_db::logrecord::{create_logrecord, LogRecord, LogRecordError, SETINT, SETSTRING};
use simple_db::setintrecord::SetIntRecord;
use simple_db::setstringrecord::SetStringRecord;

#[test]
fn set_int_record_round_trips_through_the_log() {
    let (mut fm, _) = FileMgr::new("./recint", 400, true, Vec::new());
    let mut lm = LogMgr::new(&mut fm, String::from("reclog")).unwrap();

    let blk = BlockId::new("students", 9);
    let lsn = SetIntRecord::write_to_log(&mut lm, &mut fm, 7, blk, 44, -250).unwrap();
    assert_eq!(1, lsn);

    let mut it = lm.iterator(&mut fm);
    let raw = it.next(&fm).unwrap();
    match create_logrecord(raw).unwrap() {
        LogRecord::SetInt(rec) => {
            assert_eq!(SETINT, rec.op());
            assert_eq!(7, rec.tx_number());
            assert_eq!("students", rec.blk.filename());
            assert_eq!(9, rec.blk.number());
            assert_eq!(44, rec.offset);
            assert_eq!(-250, rec.val);
        }
        LogRecord::SetString(_) => panic!("decoded the wrong record kind"),
    }
}

#[test]
fn set_string_record_round_trips_through_the_log() {
    let (mut fm, _) = FileMgr::new("./recstr", 400, true, Vec::new());
    let mut lm = LogMgr::new(&mut fm, String::from("reclog")).unwrap();

    let blk = BlockId::new("courses", 3);
    let lsn =
        SetStringRecord::write_to_log(&mut lm, &mut fm, 12, blk, 16, String::from("algebra"))
            .unwrap();
    assert_eq!(1, lsn);

    let mut it = lm.iterator(&mut fm);
    let raw = it.next(&fm).unwrap();
    match create_logrecord(raw).unwrap() {
        LogRecord::SetString(rec) => {
            assert_eq!(SETSTRING, rec.op());
            assert_eq!(12, rec.tx_number());
            assert_eq!("courses", rec.blk.filename());
            assert_eq!(3, rec.blk.number());
            assert_eq!(16, rec.offset);
            assert_eq!("algebra", rec.val);
        }
        LogRecord::SetInt(_) => panic!("decoded the wrong record kind"),
    }
}

#[test]
fn unknown_op_codes_are_refused() {
    // a commit record's code is reserved but not decoded by this core
    let bytes = vec![0u8, 0, 0, 2, 0, 0, 0, 0];
    assert!(matches!(
        create_logrecord(bytes),
        Err(LogRecordError::UnknownRecord)
    ));
}

#[test]
fn truncated_records_are_refused() {
    // too short even for an op code
    assert!(matches!(
        create_logrecord(vec![0u8, 0]),
        Err(LogRecordError::Malformed)
    ));
    // a bare integer-update op code with its body missing
    assert!(matches!(
        create_logrecord(vec![0u8, 0, 0, 4]),
        Err(LogRecordError::Malformed)
    ));
}

#[test]
fn largest_fitting_string_record_is_accepted() {
    // a string record is 24 + filename + value bytes; the log accepts it
    // exactly when that plus the 8 bytes of block overhead fits a block
    let (mut fm, _) = FileMgr::new("./recfit", 64, true, Vec::new());
    let mut lm = LogMgr::new(&mut fm, String::from("fitlog")).unwrap();
    let blk = BlockId::new("f", 0);
    // 1 + 31 + 32 == 64: exactly fills a fresh block
    let fitting = "v".repeat(31);
    let lsn =
        SetStringRecord::write_to_log(&mut lm, &mut fm, 1, blk, 0, fitting.clone()).unwrap();
    assert_eq!(1, lsn);
    // one byte more can never fit
    let blk = BlockId::new("f", 0);
    let too_big = "v".repeat(32);
    assert!(SetStringRecord::write_to_log(&mut lm, &mut fm, 1, blk, 0, too_big).is_err());
    // the fitting record is really in the log
    let mut it = lm.iterator(&mut fm);
    match create_logrecord(it.next(&fm).unwrap()).unwrap() {
        LogRecord::SetString(rec) => assert_eq!(fitting, rec.val),
        LogRecord::SetInt(_) => panic!("decoded the wrong record kind"),
    }
}
