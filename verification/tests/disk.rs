use relly::disk::{allocate_page_id, page_count, page_offset, PageId, PAGE_SIZE};

#[test]
fn page_id_valid_and_default() {
    assert_eq!(PageId(3).valid(), Some(PageId(3)));
    assert_eq!(PageId(u64::MAX).valid(), None);
    assert_eq!(PageId::default(), PageId(u64::MAX));
    assert_eq!(PageId::from(None), PageId(u64::MAX));
    assert_eq!(PageId::from(Some(PageId(9))), PageId(9));
    assert_eq!(PageId(42).to_u64(), 42);
}

#[test]
fn page_id_bytes_roundtrip() {
    let p = PageId(0x0102_0304_0506_0708);
    let b = p.to_bytes();
    assert_eq!(b, [8, 7, 6, 5, 4, 3, 2, 1]);
    assert_eq!(PageId::from_bytes(&b), p);
}

#[test]
fn page_arithmetic() {
    assert_eq!(page_count(0), 0);
    assert_eq!(page_count(PAGE_SIZE as u64 * 3 + 17), 3);
    assert_eq!(page_offset(PageId(5)), 5 * 4096);
}

#[test]
fn page_id_bytes_read_then_written_back() {
    let bytes = [0xffu8, 0, 0x10, 0x20, 0, 0, 0, 0x7f];
    assert_eq!(PageId::from_bytes(&bytes).to_bytes(), bytes);
    assert_eq!(PageId::from_bytes(&bytes).0, 0x7f00_0000_2010_00ff);
}

#[test]
fn page_ids_are_handed_out_in_order() {
    let (a, next) = allocate_page_id(0);
    let (b, next) = allocate_page_id(next);
    assert_eq!(a, PageId(0));
    assert_eq!(b, PageId(1));
    assert_eq!(next, 2);
}
