use embedded_storage::mem_flash::MemFlash;
use embedded_storage::nor_flash::{
    NorFlashErrorKind, RmwMultiwriteNorFlashStorage, RmwNorFlashStorage,
};
use embedded_storage::{ReadStorage, Storage};

#[test]
fn write_then_read_roundtrip_single_page() {
    let device = MemFlash::<4, 4, 4>::new(vec![0xff; 16]);
    let mut storage = RmwNorFlashStorage::new(device, vec![0x00; 4]).unwrap();
    storage.write(4, &[1, 2, 3, 4]).unwrap();
    let mut buf = vec![0u8; 4];
    storage.read(4, &mut buf).unwrap();
    assert_eq!(buf, vec![1, 2, 3, 4]);
}

#[test]
fn write_then_read_roundtrip_across_pages() {
    let device = MemFlash::<4, 4, 4>::new(vec![0xff; 16]);
    let mut storage = RmwNorFlashStorage::new(device, vec![0x00; 4]).unwrap();
    let data = [10, 20, 30, 40, 50, 60, 70];
    storage.write(3, &data).unwrap();
    let mut buf = vec![0u8; 7];
    storage.read(3, &mut buf).unwrap();
    assert_eq!(buf, data.to_vec());
}

#[test]
fn multiwrite_roundtrip_across_pages() {
    let device = MemFlash::<1, 1, 4>::new(vec![0x00; 12]);
    let mut storage = RmwMultiwriteNorFlashStorage::new(device, vec![0x00; 4]).unwrap();
    let data = [1, 2, 3, 4, 5, 6, 7, 8, 9];
    storage.write(2, &data).unwrap();
    let mut buf = vec![0u8; 9];
    storage.read(2, &mut buf).unwrap();
    assert_eq!(buf, data.to_vec());
}

// Device with all three granularities 4 and a capacity of 8 (two pages):
// writing three bytes at offset 3 merges one byte into page 0 and two bytes
// into page 1, erasing both pages, and reading the range back returns the
// written bytes.
#[test]
fn write_merges_across_the_page_boundary() {
    let device = MemFlash::<4, 4, 4>::new(vec![0xff; 8]);
    let mut storage = RmwNorFlashStorage::new(device, vec![0x00; 4]).unwrap();
    storage.write(3, &[0xaa, 0xbb, 0xcc]).unwrap();
    assert_eq!(storage.device().erase_count(), 2);
    assert_eq!(
        storage.device().data(),
        &vec![0xff, 0xff, 0xff, 0xaa, 0xbb, 0xcc, 0xff, 0xff]
    );
    let mut buf = vec![0u8; 3];
    storage.read(3, &mut buf).unwrap();
    assert_eq!(buf, vec![0xaa, 0xbb, 0xcc]);
}

#[test]
fn multiwrite_subset_write_skips_the_erase() {
    // Every written byte only keeps 1-bits that are already stored, so no
    // page is erased.
    let device = MemFlash::<1, 4, 4>::new(vec![0xf0; 8]);
    let mut storage = RmwMultiwriteNorFlashStorage::new(device, vec![0x00; 4]).unwrap();
    storage.write(0, &[0xa0, 0x50, 0xf0, 0x00]).unwrap();
    assert_eq!(storage.device().erase_count(), 0);
    assert_eq!(
        storage.device().data(),
        &vec![0xa0, 0x50, 0xf0, 0x00, 0xf0, 0xf0, 0xf0, 0xf0]
    );
}

#[test]
fn multiwrite_subset_write_pads_to_the_write_granularity() {
    // An unaligned one-byte subset write is padded with all-ones bytes to a
    // whole write-granularity word, which changes nothing around it.
    let device = MemFlash::<1, 4, 4>::new(vec![0xf0; 8]);
    let mut storage = RmwMultiwriteNorFlashStorage::new(device, vec![0x00; 4]).unwrap();
    storage.write(1, &[0x30]).unwrap();
    assert_eq!(storage.device().erase_count(), 0);
    assert_eq!(
        storage.device().data(),
        &vec![0xf0, 0x30, 0xf0, 0xf0, 0xf0, 0xf0, 0xf0, 0xf0]
    );
}

#[test]
fn multiwrite_nonsubset_write_erases_the_page() {
    // The first byte tries to set bits that are cleared on flash, so its
    // page is erased before the write; the other page is untouched.
    let device = MemFlash::<1, 4, 4>::new(vec![0x0f; 8]);
    let mut storage = RmwMultiwriteNorFlashStorage::new(device, vec![0x00; 4]).unwrap();
    storage.write(0, &[0xf0, 0x00, 0x00, 0x00]).unwrap();
    assert_eq!(storage.device().erase_count(), 1);
    assert_eq!(
        storage.device().data(),
        &vec![0xf0, 0x00, 0x00, 0x00, 0x0f, 0x0f, 0x0f, 0x0f]
    );
}

#[test]
fn multiwrite_read_is_stitched() {
    // The multiwrite engine's read carries the same relaxed contract as the
    // plain engine's: unaligned requests against a read-granularity-4
    // device are stitched from aligned device reads.
    for start in 0..8u32 {
        for len in 0..(8 - start as usize) {
            let device = MemFlash::<4, 4, 4>::new((0u8..8).collect());
            let mut storage = RmwMultiwriteNorFlashStorage::new(device, vec![0x00; 4]).unwrap();
            let mut buf = vec![0u8; len];
            storage.read(start, &mut buf).unwrap();
            let expected: Vec<u8> = (start as u8..start as u8 + len as u8).collect();
            assert_eq!(buf, expected);
        }
    }
}

#[test]
fn zero_length_operations_are_noop_successes() {
    let device = MemFlash::<4, 4, 4>::new(vec![0xff; 8]);
    let mut storage = RmwNorFlashStorage::new(device, vec![0x00; 4]).unwrap();
    let mut buf = vec![];
    assert_eq!(storage.read(3, &mut buf), Ok(()));
    assert_eq!(storage.write(3, &[]), Ok(()));
    assert_eq!(storage.device().erase_count(), 0);
    assert_eq!(storage.device().data(), &vec![0xff; 8]);

    let device = MemFlash::<4, 4, 4>::new(vec![0xff; 8]);
    let mut storage = RmwMultiwriteNorFlashStorage::new(device, vec![0x00; 4]).unwrap();
    assert_eq!(storage.read(3, &mut buf), Ok(()));
    assert_eq!(storage.write(3, &[]), Ok(()));
    assert_eq!(storage.device().erase_count(), 0);
}

#[test]
fn failed_write_aborts_without_rollback() {
    // The device rejects the page-sized write (its write granularity is
    // wider than a page), so the engine aborts immediately after reading
    // and erasing the first touched page: the error comes back verbatim,
    // the failing page is left erased, and the page never reached keeps its
    // old content.
    let device = MemFlash::<1, 8, 4>::new(vec![0x00; 8]);
    let mut storage = RmwNorFlashStorage::new(device, vec![0x00; 4]).unwrap();
    let r = storage.write(0, &[1, 2, 3, 4, 5, 6]);
    assert_eq!(r, Err(NorFlashErrorKind::NotAligned));
    assert_eq!(storage.device().erase_count(), 1);
    assert_eq!(
        storage.device().data(),
        &vec![0xff, 0xff, 0xff, 0xff, 0x00, 0x00, 0x00, 0x00]
    );
}

#[test]
fn buffer_too_small_fails_construction() {
    let device = MemFlash::<4, 4, 4>::new(vec![0xff; 8]);
    let r = RmwNorFlashStorage::new(device, vec![0x00; 3]);
    assert_eq!(r.err(), Some(NorFlashErrorKind::Other));

    let device = MemFlash::<4, 4, 4>::new(vec![0xff; 8]);
    let r = RmwMultiwriteNorFlashStorage::new(device, vec![0x00; 3]);
    assert_eq!(r.err(), Some(NorFlashErrorKind::Other));
}

#[test]
fn construction_rejects_inoperable_geometry() {
    // A capacity that is not a multiple of the erase size cannot be driven
    // page by page.
    let device = MemFlash::<4, 4, 4>::new(vec![0xff; 6]);
    assert!(RmwNorFlashStorage::new(device, vec![0x00; 4]).is_err());
    // An erase size that is not a multiple of the write size breaks the
    // multiwrite padding.
    let device = MemFlash::<1, 3, 4>::new(vec![0xff; 8]);
    assert!(RmwMultiwriteNorFlashStorage::new(device, vec![0x00; 4]).is_err());
}

#[test]
fn failed_construction_performs_no_device_operations() {
    let device = MemFlash::<4, 4, 4>::new(vec![0xff; 8]);
    assert_eq!(device.erase_count(), 0);
    let r = RmwNorFlashStorage::new(device, vec![0x00; 1]);
    assert!(r.is_err());
}

#[test]
fn capacity_reports_the_device_capacity() {
    let device = MemFlash::<4, 4, 4>::new(vec![0xff; 16]);
    let storage = RmwNorFlashStorage::new(device, vec![0x00; 4]).unwrap();
    assert_eq!(storage.capacity(), 16);
    let device = MemFlash::<4, 4, 4>::new(vec![0xff; 16]);
    let storage = RmwMultiwriteNorFlashStorage::new(device, vec![0x00; 4]).unwrap();
    assert_eq!(storage.capacity(), 16);
}
