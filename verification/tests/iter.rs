use embedded_storage::iter::{IterableByOverlaps, PageGrid};
use embedded_storage::nor_flash::Page;
use embedded_storage::Region;

#[test]
fn page_region_bounds() {
    let page = Page::new(3, 4);
    assert_eq!(page.start(), 12);
    assert_eq!(page.end(), 16);
    assert!(!page.contains(11));
    assert!(page.contains(12));
    assert!(page.contains(15));
    assert!(!page.contains(16));
}

#[test]
fn overlap_iterator_partitions() {
    // A 10-byte buffer at address 3, over four 4-byte pages: the yielded
    // sub-ranges are adjacent, cover all 10 bytes, and ascend.
    let mut it = PageGrid::new(4, 4).overlaps(10, 3);
    let o1 = it.next().unwrap();
    assert_eq!((o1.mem_start, o1.mem_end, o1.addr, o1.page.start), (0, 1, 3, 0));
    let o2 = it.next().unwrap();
    assert_eq!((o2.mem_start, o2.mem_end, o2.addr, o2.page.start), (1, 5, 4, 4));
    let o3 = it.next().unwrap();
    assert_eq!((o3.mem_start, o3.mem_end, o3.addr, o3.page.start), (5, 9, 8, 8));
    let o4 = it.next().unwrap();
    assert_eq!((o4.mem_start, o4.mem_end, o4.addr, o4.page.start), (9, 10, 12, 12));
    assert!(it.next().is_none());
}

#[test]
fn overlap_iterator_empty_buffer() {
    let mut it = PageGrid::new(4, 2).overlaps(0, 2);
    assert!(it.next().is_none());
}

#[test]
fn overlap_iterator_skips_pages_touched_only_at_a_boundary() {
    // The buffer [0, 4) ends exactly where page 1 starts: page 1 is not
    // yielded.
    let mut it = PageGrid::new(4, 2).overlaps(4, 0);
    let o = it.next().unwrap();
    assert_eq!((o.mem_start, o.mem_end, o.page.start), (0, 4, 0));
    assert!(it.next().is_none());
}
