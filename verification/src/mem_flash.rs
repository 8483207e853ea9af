//! An in-memory NOR flash simulation.
//!
//! It enforces the alignment and bounds rules of a real NOR flash through
//! the validation helpers, erases to all-ones, performs AND-semantics
//! writes, and counts erase operations, so it serves both as a verified
//! implementor of the device traits and as a test double.

use crate::bytes::{spec_and_write, spec_erase_range};
use crate::nor_flash::{
    check_erase_inner, check_slice_inner, spec_check, spec_check_erase, ErrorType,
    MultiwriteNorFlash, NorFlash, NorFlashErrorKind, ReadNorFlash,
};
use vstd::prelude::*;

verus! {

/// An in-memory flash device with the given read, write and erase
/// granularities, whose capacity is the length of the backing vector.
pub struct MemFlash<const R: usize, const W: usize, const E: usize> {
    data: Vec<u8>,
    erase_count: u64,
}

impl<const R: usize, const W: usize, const E: usize> MemFlash<R, W, E> {
    /// A device holding exactly the given bytes, with no erases performed.
    pub fn new(data: Vec<u8>) -> (r: Self)
        ensures
            r.contents() == data@,
            r.erases() == 0,
    {
        MemFlash { data, erase_count: 0 }
    }

    /// The bytes the device currently stores.
    pub fn data(&self) -> (r: &Vec<u8>)
        ensures
            r@ == self.contents(),
    {
        &self.data
    }

    /// How many erase operations the device has performed.
    pub fn erase_count(&self) -> (r: u64)
        ensures
            r == self.erases(),
    {
        self.erase_count
    }
}

impl<const R: usize, const W: usize, const E: usize> ErrorType for MemFlash<R, W, E> {
    type Error = NorFlashErrorKind;
}

impl<const R: usize, const W: usize, const E: usize> ReadNorFlash for MemFlash<R, W, E> {
    open spec fn spec_read_size() -> usize {
        R
    }

    closed spec fn contents(&self) -> Seq<u8> {
        self.data@
    }

    closed spec fn erases(&self) -> nat {
        self.erase_count as nat
    }

    fn read_size() -> usize {
        R
    }

    fn read(&mut self, offset: u32, bytes: &mut Vec<u8>) -> (r: Result<(), NorFlashErrorKind>)
        ensures
            R == 0 ==> r == Err::<(), NorFlashErrorKind>(NorFlashErrorKind::Other),
            R >= 1 ==> r == spec_check(
                R as int,
                old(self).contents().len() as int,
                offset as int,
                old(bytes)@.len() as int,
            ),
            r is Err ==> final(bytes)@ == old(bytes)@,
    {
        if R == 0 {
            return Err(NorFlashErrorKind::Other);
        }
        let len = bytes.len();
        match check_slice_inner(self.data.len(), R, offset, len) {
            Err(e) => {
                return Err(e);
            },
            Ok(()) => {},
        }
        let base = offset as usize;
        proof {
            assert(base + len <= usize::MAX);
        }
        let mut i: usize = 0;
        while i < len
            invariant
                i <= len,
                base + len <= usize::MAX,
                base + len <= self.data@.len(),
                self == old(self),
                bytes@.len() == old(bytes)@.len() == len,
                bytes@.take(i as int) == self.data@.subrange(base as int, base + i),
            decreases len - i,
        {
            let b = self.data[base + i];
            bytes.set(i, b);
            i = i + 1;
            proof {
                assert(bytes@.take(i as int) =~= self.data@.subrange(base as int, base + i));
            }
        }
        proof {
            assert(bytes@ =~= bytes@.take(len as int));
        }
        Ok(())
    }

    fn capacity(&self) -> usize {
        self.data.len()
    }
}

impl<const R: usize, const W: usize, const E: usize> NorFlash for MemFlash<R, W, E> {
    open spec fn spec_write_size() -> usize {
        W
    }

    open spec fn spec_erase_size() -> usize {
        E
    }

    fn write_size() -> usize {
        W
    }

    fn erase_size() -> usize {
        E
    }

    fn erase(&mut self, from: u32, to: u32) -> (r: Result<(), NorFlashErrorKind>)
        ensures
            E == 0 ==> r == Err::<(), NorFlashErrorKind>(NorFlashErrorKind::Other),
            E >= 1 && spec_check_erase(
                E as int,
                old(self).contents().len() as int,
                from as int,
                to as int,
            ) is Err ==> r == spec_check_erase(
                E as int,
                old(self).contents().len() as int,
                from as int,
                to as int,
            ),
            E >= 1 && spec_check_erase(
                E as int,
                old(self).contents().len() as int,
                from as int,
                to as int,
            ) is Ok ==> if old(self).erases() < u64::MAX {
                r is Ok
            } else {
                r == Err::<(), NorFlashErrorKind>(NorFlashErrorKind::Other)
            },
            r is Err ==> final(self).contents() == old(self).contents() && final(self).erases()
                == old(self).erases(),
    {
        if E == 0 {
            return Err(NorFlashErrorKind::Other);
        }
        match check_erase_inner(self.data.len(), E, from, to) {
            Err(e) => {
                return Err(e);
            },
            Ok(()) => {},
        }
        if self.erase_count == u64::MAX {
            // The simulated endurance is exhausted.
            return Err(NorFlashErrorKind::Other);
        }
        let from = from as usize;
        let to = to as usize;
        let mut i: usize = from;
        while i < to
            invariant
                from <= i <= to <= self.data@.len(),
                self.data@.len() == old(self).data@.len(),
                self.erase_count == old(self).erase_count,
                self.data@ == spec_erase_range(old(self).data@, from as int, i as int),
            decreases to - i,
        {
            self.data.set(i, 0xff);
            i = i + 1;
            proof {
                assert(self.data@ =~= spec_erase_range(old(self).data@, from as int, i as int));
            }
        }
        self.erase_count = self.erase_count + 1;
        proof {
            assert(self.data@ =~= spec_erase_range(old(self).data@, from as int, to as int));
        }
        Ok(())
    }

    fn write(&mut self, offset: u32, bytes: &[u8]) -> (r: Result<(), NorFlashErrorKind>)
        ensures
            W == 0 ==> r == Err::<(), NorFlashErrorKind>(NorFlashErrorKind::Other),
            W >= 1 ==> r == spec_check(
                W as int,
                old(self).contents().len() as int,
                offset as int,
                bytes@.len() as int,
            ),
            r is Err ==> final(self).contents() == old(self).contents(),
    {
        if W == 0 {
            return Err(NorFlashErrorKind::Other);
        }
        let len = bytes.len();
        match check_slice_inner(self.data.len(), W, offset, len) {
            Err(e) => {
                return Err(e);
            },
            Ok(()) => {},
        }
        let base = offset as usize;
        proof {
            assert(base + len <= usize::MAX);
        }
        let mut i: usize = 0;
        while i < len
            invariant
                i <= len,
                base + len <= usize::MAX,
                base + len <= self.data@.len(),
                len == bytes@.len(),
                self.data@.len() == old(self).data@.len(),
                self.erase_count == old(self).erase_count,
                self.data@ == spec_and_write(old(self).data@, base as int, bytes@.take(i as int)),
            decreases len - i,
        {
            let stored = self.data[base + i];
            let b = bytes[i];
            self.data.set(base + i, b & stored);
            i = i + 1;
            proof {
                assert(self.data@ =~= spec_and_write(
                    old(self).data@,
                    base as int,
                    bytes@.take(i as int),
                ));
            }
        }
        proof {
            assert(bytes@.take(len as int) =~= bytes@);
        }
        Ok(())
    }
}

impl<const R: usize, const W: usize, const E: usize> MultiwriteNorFlash for MemFlash<R, W, E> {

}

} // verus!
