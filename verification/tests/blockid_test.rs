use simple_db::blockid::BlockId;

#[test]
fn test_display() {
    let filename = String::from("test");
    let blknum = 10;

    let bi = BlockId::new(&filename, blknum);

    assert_eq!(filename, bi.filename());
    assert_eq!(blknum, bi.number());
    assert_eq!(
        format!("[file {}, block {}]", filename, blknum),
        bi.to_display_string()
    )
}

#[test]
fn block_id_equality() {
    let a = BlockId::new("data", 7);
    let b = BlockId::new("data", 7);
    let c = BlockId::new("data", 8);
    let d = BlockId::new("other", 7);
    assert_eq!(a, b);
    assert_ne!(a, c);
    assert_ne!(a, d);
}
