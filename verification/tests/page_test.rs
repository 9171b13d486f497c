use simple_db::page::{Page, PageError};

#[test]
fn test_int() {
    let mut page = Page::new_from_size(20);
    let offset = 4;
    let value: i32 = 30;
    page.set_int(offset, value).unwrap();

    assert_eq!(30, page.get_int(offset).unwrap());
}

#[test]
fn test_string() {
    let mut page = Page::new_from_size(20);
    let offset = 4;
    let value = String::from("hello");
    page.set_string(offset, value).unwrap();

    assert_eq!("hello", page.get_string(offset).unwrap());
}

#[test]
fn int_round_trip_negative_and_extremes() {
    let mut page = Page::new_from_size(16);
    for v in [0, -1, 1, i32::MIN, i32::MAX, -123456789] {
        page.set_int(8, v).unwrap();
        assert_eq!(v, page.get_int(8).unwrap());
    }
}

#[test]
fn int_big_endian_layout() {
    let mut page = Page::new_from_size(8);
    page.set_int(0, 0x01020304).unwrap();
    assert_eq!(&page.contents()[0..4], &[1u8, 2, 3, 4]);
}

#[test]
fn bounds_are_checked_and_nothing_is_written() {
    let mut page = Page::new_from_size(10);
    // an integer needs offsets 7..=10, one past the end
    assert_eq!(Err(PageError::BufferSizeExceeded), page.set_int(7, 99));
    assert_eq!(Err(PageError::BufferSizeExceeded), page.get_int(7));
    // a failed write leaves the page all zeroes
    assert!(page.contents().iter().all(|b| *b == 0));
    // the last in-bounds offset works
    page.set_int(6, 7).unwrap();
    assert_eq!(7, page.get_int(6).unwrap());
}

#[test]
fn string_bounds_are_checked() {
    let mut page = Page::new_from_size(10);
    // "hello" needs 4 + 5 = 9 bytes; at offset 2 that runs past the end
    assert_eq!(
        Err(PageError::BufferSizeExceeded),
        page.set_string(2, String::from("hello"))
    );
    assert!(page.contents().iter().all(|b| *b == 0));
    page.set_string(1, String::from("hello")).unwrap();
    assert_eq!("hello", page.get_string(1).unwrap());
}

#[test]
fn get_string_rejects_invalid_utf8() {
    let mut page = Page::new_from_size(12);
    page.set_bytes(0, &vec![0xffu8, 0xfe]).unwrap();
    assert_eq!(Err(PageError::InvalidUtf8), page.get_string(0));
}

#[test]
fn bytes_round_trip() {
    let mut page = Page::new_from_size(32);
    let data = vec![9u8, 8, 7, 6, 5];
    let next = page.set_bytes(3, &data).unwrap();
    assert_eq!(3 + 4 + 5, next);
    assert_eq!(data, page.get_bytes(3).unwrap());
}

#[test]
fn max_length_counts_the_header() {
    assert_eq!(4, Page::max_length(0));
    assert_eq!(17, Page::max_length(13));
}

#[test]
fn new_from_bytes_keeps_the_bytes() {
    let page = Page::new_from_bytes(vec![0, 0, 0, 5]);
    assert_eq!(5, page.get_int(0).unwrap());
}

#[test]
fn non_ascii_strings_round_trip_as_utf8() {
    let mut page = Page::new_from_size(32);
    // one-, two- and three-byte encodings in one string
    let text = String::from("h\u{e9}llo\u{2205}");
    page.set_string(0, text.clone()).unwrap();
    assert_eq!(text, page.get_string(0).unwrap());
    // the stored length header counts UTF-8 bytes, not characters
    assert_eq!(text.len() as i32, page.get_int(0).unwrap());
    assert_eq!(9, page.get_int(0).unwrap());
}
