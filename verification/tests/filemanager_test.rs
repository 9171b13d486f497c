use simple_db::blockid::BlockId;
use simple_db::filemanager::FileMgr;
use simple_db::page::Page;

#[test]
fn read_write() {
    let (mut fm, _purged) = FileMgr::new("./testdb", 400, true, Vec::new());
    let blk = BlockId::new("testfile", 2);

    let mut p1 = Page::new_from_size(fm.blocksize());
    let pos1 = 88;
    p1.set_string(pos1, String::from("abcdefghijklm")).unwrap();

    let pos2 = pos1 + Page::max_length("abcdefghijklm".len());
    p1.set_int(pos2, 345).unwrap();

    fm.write(&blk, &p1);

    let mut p2 = Page::new_from_size(fm.blocksize());
    fm.read(&blk, &mut p2);

    // string
    assert_eq!(String::from("abcdefghijklm"), p2.get_string(pos1).unwrap());
    println!(
        "offset: {}, contains: {}",
        pos1,
        p2.get_string(pos1).unwrap()
    );

    // int
    assert_eq!(345, p2.get_int(pos2).unwrap());
    println!("offset: {}, contains: {}", pos2, p2.get_int(pos2).unwrap());
}

#[test]
fn keep_map_after_renewing() {
    const POS: usize = 100;
    const TEXT: &str = "Make America great again.";
    const NUM: i32 = 500;

    let blk = BlockId::new("file1", 0);
    let blk2 = BlockId::new("file2", 0);
    let (file1_bytes, file2_bytes) = {
        let (mut fm, _) = FileMgr::new("./keep_map_after_renewing", 400, true, Vec::new());

        let mut page = page_test_case(fm.blocksize(), POS, TEXT, NUM);

        fm.write(&blk, &mut page);
        fm.write(&blk2, &mut page);

        // what a later run would find on disk: each file's raw bytes
        let mut b1 = Page::new_from_size(fm.blocksize());
        fm.read(&blk, &mut b1);
        let mut b2 = Page::new_from_size(fm.blocksize());
        fm.read(&blk2, &mut b2);
        (b1.contents().clone(), b2.contents().clone())
    };
    {
        let (fm, _) = FileMgr::new(
            "./keep_map_after_renewing",
            400,
            false,
            vec![
                (String::from("file1"), file1_bytes),
                (String::from("file2"), file2_bytes),
            ],
        );
        let mut p1 = Page::new_from_size(fm.blocksize());
        let mut p2 = Page::new_from_size(fm.blocksize());

        fm.read(&blk, &mut p1);
        fm.read(&blk2, &mut p2);

        println!("offset: {}, contains: {}", POS, p1.get_string(POS).unwrap());
        assert_eq!(TEXT.to_string(), p1.get_string(POS).unwrap());
        println!("offset: {}, contains: {}", POS, p2.get_string(POS).unwrap());
        assert_eq!(TEXT.to_string(), p2.get_string(POS).unwrap());
    }
}

// return the page with text and number on specified offset
fn page_test_case(blocksize: usize, offset: usize, text: &str, num: i32) -> Page {
    let mut page = Page::new_from_size(blocksize);

    page.set_string(offset, String::from(text)).unwrap();

    let pos2 = offset + Page::max_length(text.len());
    page.set_int(pos2, num).unwrap();

    page
}

#[test]
fn temp_files_are_purged_on_startup() {
    let listing = vec![
        (String::from("tempscratch"), vec![1u8, 2, 3]),
        (String::from("table"), vec![0u8; 900]),
    ];
    let (fm, purged) = FileMgr::new("./purgetest", 400, false, listing);
    assert_eq!(vec![String::from("tempscratch")], purged);
    assert_eq!(0, fm.length("tempscratch"));
    // 900 bytes cut into 400-byte blocks: three blocks, the last padded
    assert_eq!(3, fm.length("table"));
}

#[test]
fn append_grows_a_file_block_by_block() {
    let (mut fm, _) = FileMgr::new("./appendtest", 128, true, Vec::new());
    assert_eq!(0, fm.length("f"));
    let b0 = fm.append("f");
    let b1 = fm.append("f");
    assert_eq!(0, b0.number());
    assert_eq!(1, b1.number());
    assert_eq!(2, fm.length("f"));
    // a fresh block reads as zeroes, as does a block past the end
    let mut p = Page::new_from_size(fm.blocksize());
    fm.read(&b0, &mut p);
    assert!(p.contents().iter().all(|b| *b == 0));
    fm.read(&BlockId::new("f", 9), &mut p);
    assert!(p.contents().iter().all(|b| *b == 0));
}

#[test]
fn writes_are_journalled_in_order() {
    let (mut fm, _) = FileMgr::new("./journaltest", 64, true, Vec::new());
    let mut p = Page::new_from_size(64);
    p.set_int(0, 1).unwrap();
    fm.write(&BlockId::new("a", 0), &p);
    p.set_int(0, 2).unwrap();
    fm.write(&BlockId::new("b", 3), &p);
    let ops = fm.take_ops();
    assert_eq!(2, ops.len());
    assert_eq!("a", ops[0].filename);
    assert_eq!(0, ops[0].blknum);
    assert_eq!("b", ops[1].filename);
    assert_eq!(3, ops[1].blknum);
    assert_eq!(2, ops[1].bytes[3]);
    assert_eq!(0, fm.take_ops().len());
}

#[test]
fn config_accessors() {
    let (fm, _) = FileMgr::new("./configtest", 400, true, Vec::new());
    assert_eq!(400, fm.blocksize());
    assert!(fm.is_new());
}
