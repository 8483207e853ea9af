use embedded_storage::mem_flash::MemFlash;
use embedded_storage::nor_flash::{
    check_erase, check_read, check_write, round_down, round_up, NorFlash, NorFlashError,
    NorFlashErrorKind, ReadNorFlash, RmwNorFlashStorage,
};
use embedded_storage::ReadStorage;

/// A fake storage driver that requires reads to be aligned to 4 bytes and
/// whose every byte equals its own address.
fn strict_read_align() -> MemFlash<4, 4, 4> {
    MemFlash::new((0u8..8).collect())
}

#[test]
fn test_read_unaligned() {
    let buffer = vec![0x00; 4];
    let mut storage = RmwNorFlashStorage::new(strict_read_align(), buffer).unwrap();

    let mut my_buffer = vec![0x00; 1];
    storage.read(3, &mut my_buffer).unwrap();
    assert_eq!(my_buffer[0], 0x03);
}

/// Check that `RmwNorFlashStorage::read` correctly reads memory.
#[test]
fn test_rmwstorage_read() {
    for start in 0..4 {
        for end in start..4 {
            let buffer = vec![0x00; 4];
            let mut storage = RmwNorFlashStorage::new(strict_read_align(), buffer).unwrap();

            let mut my_buffer = vec![0x00; end - start];
            storage.read(start as u32, &mut my_buffer).unwrap();
            assert!(my_buffer.iter().enumerate().all(|(i, &x)| x == i as u8 + start as u8));
        }
    }
}

#[test]
fn stitched_read_matches_device_image() {
    // Every (offset, length) read through the stitcher returns the matching
    // sub-range of the device image, across block boundaries.
    for start in 0..16u32 {
        for len in 0..(16 - start as usize) {
            let device = MemFlash::<4, 4, 4>::new((0u8..16).collect());
            let mut storage = RmwNorFlashStorage::new(device, vec![0x00; 4]).unwrap();
            let mut buf = vec![0u8; len];
            storage.read(start, &mut buf).unwrap();
            let expected: Vec<u8> = (start as u8..start as u8 + len as u8).collect();
            assert_eq!(buf, expected);
        }
    }
}

#[test]
fn check_read_exact() {
    let flash = MemFlash::<4, 4, 4>::new(vec![0xff; 16]);
    assert_eq!(check_read(&flash, 0, 4), Ok(()));
    assert_eq!(check_read(&flash, 12, 4), Ok(()));
    assert_eq!(check_read(&flash, 1, 4), Err(NorFlashErrorKind::NotAligned));
    assert_eq!(check_read(&flash, 0, 3), Err(NorFlashErrorKind::NotAligned));
    assert_eq!(check_read(&flash, 16, 4), Err(NorFlashErrorKind::OutOfBounds));
    // A range that is both unaligned and out of bounds is out of bounds.
    assert_eq!(check_read(&flash, 15, 7), Err(NorFlashErrorKind::OutOfBounds));
}

#[test]
fn check_write_exact() {
    let flash = MemFlash::<1, 4, 8>::new(vec![0xff; 16]);
    assert_eq!(check_write(&flash, 4, 8), Ok(()));
    assert_eq!(check_write(&flash, 2, 4), Err(NorFlashErrorKind::NotAligned));
    assert_eq!(check_write(&flash, 4, 6), Err(NorFlashErrorKind::NotAligned));
    assert_eq!(check_write(&flash, 12, 8), Err(NorFlashErrorKind::OutOfBounds));
}

#[test]
fn check_erase_exact() {
    let flash = MemFlash::<1, 4, 8>::new(vec![0xff; 16]);
    assert_eq!(check_erase(&flash, 0, 16), Ok(()));
    assert_eq!(check_erase(&flash, 8, 8), Ok(()));
    assert_eq!(check_erase(&flash, 4, 8), Err(NorFlashErrorKind::NotAligned));
    assert_eq!(check_erase(&flash, 0, 4), Err(NorFlashErrorKind::NotAligned));
    assert_eq!(check_erase(&flash, 0, 24), Err(NorFlashErrorKind::OutOfBounds));
    // A backwards range is always out of bounds, never a no-op.
    assert_eq!(check_erase(&flash, 8, 0), Err(NorFlashErrorKind::OutOfBounds));
}

#[test]
fn rounding_to_multiples() {
    assert_eq!(round_down(7, 4), 4);
    assert_eq!(round_up(7, 4), 8);
    assert_eq!(round_down(8, 4), 8);
    assert_eq!(round_up(8, 4), 8);
    assert_eq!(round_down(0, 4), 0);
    assert_eq!(round_up(0, 4), 0);
    assert_eq!(round_down(5, 0), 5);
    assert_eq!(round_up(5, 0), 5);
}

#[test]
fn error_kind_mapping() {
    assert_eq!(NorFlashErrorKind::NotAligned.kind(), NorFlashErrorKind::NotAligned);
    assert_eq!(NorFlashErrorKind::Other.kind(), NorFlashErrorKind::Other);
    assert_eq!(
        NorFlashErrorKind::NotAligned.description(),
        "Arguments are not properly aligned"
    );
    assert_eq!(NorFlashErrorKind::OutOfBounds.description(), "Arguments are out of bounds");
    assert_eq!(
        NorFlashErrorKind::Other.description(),
        "An implementation specific error occurred"
    );
}

#[test]
fn mem_flash_enforces_device_rules() {
    let mut device = MemFlash::<4, 4, 4>::new(vec![0xff; 8]);
    let mut buf = vec![0u8; 4];
    assert_eq!(device.read(1, &mut buf), Err(NorFlashErrorKind::NotAligned));
    assert_eq!(device.read(8, &mut buf), Err(NorFlashErrorKind::OutOfBounds));
    assert_eq!(device.write(0, &[1, 2, 3]), Err(NorFlashErrorKind::NotAligned));
    assert_eq!(device.erase(4, 0), Err(NorFlashErrorKind::OutOfBounds));
    assert_eq!(device.erase(0, 4), Ok(()));
    assert_eq!(device.erase_count(), 1);
}
