//! A storage abstraction layer for embedded systems.
//!
//! Storage traits that let generic code perform ordinary byte-addressed
//! reads and writes on top of NOR-flash-class devices, which natively
//! support only aligned reads, whole-page erases (setting every bit to 1),
//! and writes that can only clear bits.

use vstd::prelude::*;

pub mod bytes;
pub mod block;
pub mod iter;
pub mod mem_flash;
pub mod nor_flash;

verus! {

/// A region denotes a contiguous piece of memory between two addresses.
pub trait Region {
    /// Conditions under which the region's bounds are meaningful; in
    /// particular the end address must be representable.
    spec fn inv(&self) -> bool;

    /// Start address of the region, as a specification-level value.
    spec fn spec_start(&self) -> u32;

    /// End address (exclusive) of the region, as a specification-level value.
    spec fn spec_end(&self) -> u32;

    /// Start address of the region of `Self`
    fn start(&self) -> (r: u32)
        requires
            self.inv(),
        ensures
            r == self.spec_start(),
    ;

    /// End address of the region of `Self`
    fn end(&self) -> (r: u32)
        requires
            self.inv(),
        ensures
            r == self.spec_end(),
    ;

    /// Check if `address` is contained in the region of `Self`
    fn contains(&self, address: u32) -> (r: bool)
        requires
            self.inv(),
        ensures
            r == (self.spec_start() <= address && address < self.spec_end()),
    {
        (address >= self.start()) && (address < self.end())
    }
}

/// Transparent read only storage trait.
///
/// A storage is modelled by the byte sequence [`contents`](Self::contents)
/// it currently holds; [`wf`](Self::wf) gives the conditions under which
/// it is operable (for the engines of this crate: a sane device geometry),
/// and every operation preserves them.
pub trait ReadStorage {
    /// An enumeration of storage errors.
    type Error;

    /// Conditions under which the storage is operable; established at
    /// construction and preserved by every operation.
    spec fn wf(&self) -> bool;

    /// The bytes the storage currently holds.
    spec fn contents(&self) -> Seq<u8>;

    /// Read a slice of data from the storage peripheral, starting the read
    /// operation at the given address offset, and reading `bytes.len()`
    /// bytes. On success `bytes` holds exactly the requested range of the
    /// contents; on a device error the contents are still untouched.
    fn read(&mut self, offset: u32, bytes: &mut Vec<u8>) -> (r: Result<(), Self::Error>)
        requires
            old(self).wf(),
            offset + old(bytes)@.len() <= old(self).contents().len(),
        ensures
            final(self).wf(),
            final(self).contents() == old(self).contents(),
            final(bytes)@.len() == old(bytes)@.len(),
            r is Ok ==> final(bytes)@ == old(self).contents().subrange(
                offset as int,
                offset + old(bytes)@.len(),
            ),
    ;

    /// The capacity of the storage peripheral in bytes.
    fn capacity(&self) -> (r: usize)
        ensures
            r == self.contents().len(),
    ;
}

/// Transparent read/write storage trait.
pub trait Storage: ReadStorage {
    /// Conditions the storage needs for writing, beyond
    /// [`wf`](ReadStorage::wf); established at construction and preserved
    /// by every operation.
    spec fn write_wf(&self) -> bool;

    /// Write a slice of data to the storage peripheral, starting the write
    /// operation at the given address offset (between 0 and
    /// `self.capacity()`). On success the contents hold the written bytes
    /// at that offset and are unchanged elsewhere. On a device error the
    /// operation aborts without rollback; this trait guarantees only the
    /// length of the contents then, and the engines of this crate
    /// additionally pin the aborted state page by page in their own
    /// `write` contracts.
    ///
    /// This function will automatically erase any pages necessary to write
    /// the given data, and might as such do RMW operations at an
    /// undesirable performance impact.
    fn write(&mut self, offset: u32, bytes: &[u8]) -> (r: Result<(), Self::Error>)
        requires
            old(self).wf(),
            old(self).write_wf(),
            offset + bytes@.len() <= old(self).contents().len(),
        ensures
            final(self).wf(),
            final(self).write_wf(),
            final(self).contents().len() == old(self).contents().len(),
            r is Ok ==> final(self).contents() == crate::bytes::spec_overwrite(
                old(self).contents(),
                offset as int,
                bytes@,
            ),
    ;
}

/// A device which can read and write whole numbers of blocks.
///
/// Blocks are also referred to as sectors in some contexts. This interface
/// is what higher-level filesystems consume; implementing it is the
/// device's business, so it carries no contract beyond its signatures.
pub trait BlockDevice<const BLOCK_SIZE: usize> {
    /// The error type returned by methods on this trait.
    type Error;

    /// Returns the size of the device in blocks.
    fn block_count(&self) -> Result<usize, Self::Error>;

    /// Reads `blocks.len()` blocks from the device into `blocks`, starting
    /// at the block with index `first_block_index`.
    ///
    /// `first_block_index + blocks.len()` must not be greater than the size
    /// returned by `block_count`.
    fn read(&mut self, first_block_index: u64, blocks: &mut Vec<[u8; BLOCK_SIZE]>) -> Result<
        (),
        Self::Error,
    >;

    /// Writes `blocks.len()` blocks to the device, starting at the block
    /// with index `first_block_index`.
    ///
    /// `first_block_index + blocks.len()` must not be greater than the size
    /// returned by `block_count`.
    fn write(&mut self, first_block_index: u64, blocks: &[[u8; BLOCK_SIZE]]) -> Result<
        (),
        Self::Error,
    >;
}

} // verus!
