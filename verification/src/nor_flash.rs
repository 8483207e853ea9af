//! Technology specific traits for NOR flashes, their validation helpers,
//! and the read-modify-write storage engines built on top of them.

use crate::bytes::{
    copy_from_slice_range, lemma_erase_then_write, lemma_overwrite_via_page_image, new_filled,
    spec_and_write, spec_erase_range, spec_overwrite,
};
use crate::iter::{overlap_abs_end, overlap_abs_start, page_overlaps, IterableByOverlaps, PageGrid};
use crate::{ReadStorage, Region, Storage};
use vstd::arithmetic::div_mod::{
    lemma_fundamental_div_mod, lemma_mod_add_multiples_vanish, lemma_mod_bound,
    lemma_mod_multiples_basic, lemma_small_mod,
};
use vstd::arithmetic::mul::{lemma_mul_inequality, lemma_mul_is_distributive_add_other_way};
use vstd::prelude::*;

verus! {

/// Two distinct multiples of `m` are at least `m` apart.
proof fn lemma_multiple_gap(a: int, b: int, m: int)
    requires
        m >= 1,
        a % m == 0,
        b % m == 0,
        a < b,
    ensures
        a + m <= b,
{
    lemma_fundamental_div_mod(a, m);
    lemma_fundamental_div_mod(b, m);
    let qa = a / m;
    let qb = b / m;
    assert(m * qa < m * qb);
    assert(qa < qb) by (nonlinear_arith)
        requires
            m >= 1,
            m * qa < m * qb,
    ;
    assert(m * qa + m <= m * qb) by (nonlinear_arith)
        requires
            m >= 1,
            qa + 1 <= qb,
    ;
}

/// The greatest multiple of `m` that is at most `value`.
pub open spec fn spec_round_down(value: int, multiplier: int) -> int {
    if multiplier == 0 {
        value
    } else {
        value - value % multiplier
    }
}

/// The smallest multiple of `m` that is at least `value`.
pub open spec fn spec_round_up(value: int, multiplier: int) -> int {
    if multiplier == 0 {
        value
    } else {
        spec_round_down(value + multiplier - 1, multiplier)
    }
}

/// What rounding down gives: a multiple of `m` within `m` below `value`.
pub proof fn lemma_round_down_props(value: int, m: int)
    requires
        m >= 1,
        value >= 0,
    ensures
        spec_round_down(value, m) % m == 0,
        spec_round_down(value, m) <= value < spec_round_down(value, m) + m,
        spec_round_down(value, m) >= 0,
    decreases 0int,
{
    lemma_mod_bound(value, m);
    lemma_fundamental_div_mod(value, m);
    lemma_mod_multiples_basic(value / m, m);
    assert(m * (value / m) == (value / m) * m) by (nonlinear_arith);
}

/// Rounding down does not drop below any multiple of `m` at most `value`.
pub proof fn lemma_round_down_is_max(value: int, m: int, a: int)
    requires
        m >= 1,
        value >= 0,
        a % m == 0,
        a <= value,
    ensures
        a <= spec_round_down(value, m),
{
    lemma_round_down_props(value, m);
    let r = spec_round_down(value, m);
    if r < a {
        lemma_multiple_gap(r, a, m);
    }
}

/// What rounding up gives: a multiple of `m` within `m` above `value`.
pub proof fn lemma_round_up_props(value: int, m: int)
    requires
        m >= 1,
        value >= 0,
    ensures
        spec_round_up(value, m) % m == 0,
        value <= spec_round_up(value, m) < value + m,
{
    lemma_round_down_props(value + m - 1, m);
}

/// Rounding up does not exceed any multiple of `m` at least `value`.
pub proof fn lemma_round_up_is_min(value: int, m: int, b: int)
    requires
        m >= 1,
        0 <= value <= b,
        b % m == 0,
    ensures
        spec_round_up(value, m) <= b,
{
    lemma_round_up_props(value, m);
    let r = spec_round_up(value, m);
    if b < r {
        lemma_multiple_gap(b, r, m);
    }
}

/// Returns the greatest multiple of `multiplier` that is less than or
/// equal to `value`.
pub fn round_down(value: u32, multiplier: u32) -> (r: u32)
    ensures
        r == spec_round_down(value as int, multiplier as int),
        r <= value,
        multiplier >= 1 ==> r % multiplier == 0 && value < r + multiplier,
{
    if multiplier == 0 {
        value
    } else {
        proof {
            lemma_round_down_props(value as int, multiplier as int);
        }
        value - value % multiplier
    }
}

/// Returns the smallest multiple of `multiplier` that is greater than or
/// equal to `value`.
pub fn round_up(value: u32, multiplier: u32) -> (r: u32)
    requires
        spec_round_up(value as int, multiplier as int) <= u32::MAX,
    ensures
        r == spec_round_up(value as int, multiplier as int),
        value <= r,
        multiplier >= 1 ==> r % multiplier == 0 && r < value + multiplier,
{
    if multiplier == 0 {
        value
    } else {
        proof {
            lemma_round_up_props(value as int, multiplier as int);
            lemma_round_down_props(value as int, multiplier as int);
        }
        let rem = value % multiplier;
        if rem == 0 {
            proof {
                lemma_round_up_is_min(value as int, multiplier as int, value as int);
            }
            value
        } else {
            proof {
                let v = value as int;
                let m = multiplier as int;
                let a = v - v % m + m;
                assert(a % m == 0) by {
                    lemma_round_down_props(v, m);
                    lemma_fundamental_div_mod(v, m);
                    lemma_mod_multiples_basic(v / m + 1, m);
                    lemma_mul_is_distributive_add_other_way(m, v / m, 1);
                };
                lemma_round_down_is_max(v + m - 1, m, a);
                lemma_mod_bound(v, m);
                let ru = spec_round_up(v, m);
                if a < ru {
                    lemma_multiple_gap(a, ru, m);
                }
            }
            value - rem + multiplier
        }
    }
}

/// A page of a fixed-granularity erase grid: `size` bytes starting at
/// `index * size`.
pub struct Page {
    /// Start address of the page.
    pub start: u32,
    /// Length of the page in bytes.
    pub size: usize,
}

impl Page {
    /// The page with the given index in a grid of `size`-byte pages.
    pub fn new(index: u32, size: usize) -> (r: Page)
        requires
            (index + 1) * size <= u32::MAX,
        ensures
            r.start == index * size,
            r.size == size,
            r.inv(),
    {
        proof {
            let i = index as int;
            let s = size as int;
            assert(i * s + s == (i + 1) * s) by {
                lemma_mul_is_distributive_add_other_way(s, i, 1);
            };
            assert(i * s >= 0) by (nonlinear_arith)
                requires
                    i >= 0,
                    s >= 0,
            ;
        }
        Page { start: index * (size as u32), size }
    }
}

impl Region for Page {
    open spec fn inv(&self) -> bool {
        self.start + self.size <= u32::MAX
    }

    open spec fn spec_start(&self) -> u32 {
        self.start
    }

    open spec fn spec_end(&self) -> u32 {
        (self.start + self.size) as u32
    }

    fn start(&self) -> u32 {
        self.start
    }

    fn end(&self) -> u32 {
        self.start + (self.size as u32)
    }
}

/// NOR flash errors.
///
/// NOR flash implementations must use an error type implementing this trait.
/// This permits generic code to extract a generic error kind.
pub trait NorFlashError {
    /// Convert a specific NOR flash error into a generic error kind.
    fn kind(&self) -> NorFlashErrorKind;
}

impl NorFlashError for core::convert::Infallible {
    fn kind(&self) -> NorFlashErrorKind {
        // `Infallible` has no values, so this can never be reached; any
        // kind serves as the unreachable answer.
        NorFlashErrorKind::Other
    }
}

/// A trait that NorFlash implementations can use to share an error type.
pub trait ErrorType {
    /// Errors returned by this NOR flash.
    type Error: NorFlashError;
}

impl<T: ErrorType> ErrorType for &mut T {
    type Error = T::Error;
}

/// NOR flash error kinds.
///
/// NOR flash implementations must map their error to those generic error
/// kinds through the [`NorFlashError`] trait.
#[derive(Debug, Copy, Clone, Eq, PartialEq, Ord, PartialOrd, Hash, Structural)]
#[non_exhaustive]
pub enum NorFlashErrorKind {
    /// The arguments are not properly aligned.
    NotAligned,
    /// The arguments are out of bounds.
    OutOfBounds,
    /// Error specific to the implementation.
    Other,
}

impl NorFlashError for NorFlashErrorKind {
    fn kind(&self) -> NorFlashErrorKind {
        *self
    }
}

impl NorFlashErrorKind {
    /// A human-readable description of the error kind.
    pub fn description(&self) -> (r: &'static str)
        ensures
            *self == NorFlashErrorKind::NotAligned ==> r@ == "Arguments are not properly aligned"@,
            *self == NorFlashErrorKind::OutOfBounds ==> r@ == "Arguments are out of bounds"@,
            *self == NorFlashErrorKind::Other ==> r@ == "An implementation specific error occurred"@,
    {
        match self {
            NorFlashErrorKind::NotAligned => "Arguments are not properly aligned",
            NorFlashErrorKind::OutOfBounds => "Arguments are out of bounds",
            NorFlashErrorKind::Other => "An implementation specific error occurred",
        }
    }
}

/// Read only NOR flash trait.
///
/// A device is modelled by the byte sequence [`contents`](Self::contents)
/// it currently stores and by the counter [`erases`](Self::erases) of erase
/// operations performed on it so far; the counter lets contracts state when
/// an operation avoids erasing. A device may fail any operation with a
/// device-specific error, but whenever it reports success the contracts
/// below tie the outcome to the model.
pub trait ReadNorFlash: ErrorType + Sized {
    /// The minimum number of bytes the storage peripheral can read, as a
    /// specification-level value.
    spec fn spec_read_size() -> usize;

    /// The bytes currently stored by the device.
    spec fn contents(&self) -> Seq<u8>;

    /// How many erase operations the device has performed. Read-only use
    /// never changes it.
    spec fn erases(&self) -> nat;

    /// The minimum number of bytes the storage peripheral can read.
    fn read_size() -> (r: usize)
        ensures
            r == Self::spec_read_size(),
    ;

    /// Read `bytes.len()` bytes from the storage peripheral, starting the
    /// read operation at the given address offset.
    ///
    /// Returns an error if the arguments are not aligned or out of bounds.
    /// The implementation can use the [`check_read`] helper function.
    fn read(&mut self, offset: u32, bytes: &mut Vec<u8>) -> (r: Result<(), Self::Error>)
        ensures
            final(self).contents() == old(self).contents(),
            final(self).erases() == old(self).erases(),
            final(bytes)@.len() == old(bytes)@.len(),
            r is Ok ==> offset + old(bytes)@.len() <= old(self).contents().len()
                && final(bytes)@ == old(self).contents().subrange(
                    offset as int,
                    offset + old(bytes)@.len(),
                ),
    ;

    /// The capacity of the peripheral in bytes.
    fn capacity(&self) -> (r: usize)
        ensures
            r == self.contents().len(),
    ;
}

/// NOR flash trait.
pub trait NorFlash: ReadNorFlash {
    /// The minimum number of bytes the storage peripheral can write, as a
    /// specification-level value.
    spec fn spec_write_size() -> usize;

    /// The minimum number of bytes the storage peripheral can erase, as a
    /// specification-level value.
    spec fn spec_erase_size() -> usize;

    /// The minimum number of bytes the storage peripheral can write.
    fn write_size() -> (r: usize)
        ensures
            r == Self::spec_write_size(),
    ;

    /// The minimum number of bytes the storage peripheral can erase.
    fn erase_size() -> (r: usize)
        ensures
            r == Self::spec_erase_size(),
    ;

    /// Erase the given storage range, clearing all data within `[from..to)`.
    /// The given range will contain all 1s afterwards.
    ///
    /// If power is lost during erase, contents of the page are undefined.
    ///
    /// Returns an error if the arguments are not aligned or out of bounds
    /// (the case where `from > to` is considered out of bounds). The
    /// implementation can use the [`check_erase`] helper function.
    /// Whatever the outcome, bytes outside `[from, to)` are unchanged: a
    /// failed or interrupted erase leaves only the requested range
    /// undefined.
    fn erase(&mut self, from: u32, to: u32) -> (r: Result<(), Self::Error>)
        ensures
            final(self).contents().len() == old(self).contents().len(),
            forall|i: int|
                0 <= i < old(self).contents().len() && !(from <= i < to)
                    ==> final(self).contents()[i] == old(self).contents()[i],
            r is Ok ==> from <= to && to <= old(self).contents().len()
                && final(self).contents() == spec_erase_range(
                    old(self).contents(),
                    from as int,
                    to as int,
                )
                && final(self).erases() == old(self).erases() + 1,
    ;

    /// Write the given bytes starting at the given address offset. On NOR
    /// flash a write can only clear bits, so the stored result is the
    /// bitwise AND of the previous data and the written data; writing to a
    /// freshly erased (all-ones) range stores the data exactly.
    ///
    /// If power is lost during write, the contents of the written words are
    /// undefined, but the rest of the page is guaranteed to be unchanged.
    /// Unless the device also implements [`MultiwriteNorFlash`], it is not
    /// allowed to write to the same word twice.
    ///
    /// Returns an error if the arguments are not aligned or out of bounds.
    /// The implementation can use the [`check_write`] helper function.
    /// Whatever the outcome, bytes outside `[offset, offset + bytes.len())`
    /// are unchanged: a failed or interrupted write leaves only the written
    /// words undefined, the rest of the page is guaranteed to be unchanged.
    fn write(&mut self, offset: u32, bytes: &[u8]) -> (r: Result<(), Self::Error>)
        ensures
            final(self).contents().len() == old(self).contents().len(),
            forall|i: int|
                0 <= i < old(self).contents().len() && !(offset <= i < offset + bytes@.len())
                    ==> final(self).contents()[i] == old(self).contents()[i],
            r is Ok ==> offset + bytes@.len() <= old(self).contents().len()
                && final(self).contents() == spec_and_write(
                    old(self).contents(),
                    offset as int,
                    bytes@,
                )
                && final(self).erases() == old(self).erases(),
    ;
}

/// Marker trait for NorFlash relaxing the restrictions on `write`.
///
/// Writes to the same word twice are now allowed. The result is the logical
/// AND of the previous data and the written data. That is, it is only
/// possible to change 1 bits to 0 bits.
///
/// If power is lost during write:
/// - Bits that were 1 on flash and are written to 1 are guaranteed to stay as 1
/// - Bits that were 1 on flash and are written to 0 are undefined
/// - Bits that were 0 on flash are guaranteed to stay as 0
/// - Rest of the bits in the page are guaranteed to be unchanged
pub trait MultiwriteNorFlash: NorFlash {}

/// What a read or write validation returns: out of bounds if the range
/// exceeds the capacity, not aligned if either end of the range violates
/// the granularity, success otherwise.
pub open spec fn spec_check(align: int, capacity: int, offset: int, length: int) -> Result<
    (),
    NorFlashErrorKind,
> {
    if offset + length > capacity {
        Err(NorFlashErrorKind::OutOfBounds)
    } else if offset % align != 0 || length % align != 0 {
        Err(NorFlashErrorKind::NotAligned)
    } else {
        Ok(())
    }
}

/// What an erase validation returns: out of bounds if the range is
/// backwards or exceeds the capacity, not aligned if either end violates
/// the erase granularity, success otherwise.
pub open spec fn spec_check_erase(erase_size: int, capacity: int, from: int, to: int) -> Result<
    (),
    NorFlashErrorKind,
> {
    if from > to || to > capacity {
        Err(NorFlashErrorKind::OutOfBounds)
    } else if from % erase_size != 0 || to % erase_size != 0 {
        Err(NorFlashErrorKind::NotAligned)
    } else {
        Ok(())
    }
}

/// Return whether a read operation is within bounds and aligned to the
/// device's read granularity.
pub fn check_read<T: ReadNorFlash>(flash: &T, offset: u32, length: usize) -> (r: Result<
    (),
    NorFlashErrorKind,
>)
    requires
        T::spec_read_size() >= 1,
    ensures
        r == spec_check(
            T::spec_read_size() as int,
            flash.contents().len() as int,
            offset as int,
            length as int,
        ),
{
    check_slice(flash, T::read_size(), offset, length)
}

/// Return whether an erase operation is within bounds and aligned to the
/// device's erase granularity.
pub fn check_erase<T: NorFlash>(flash: &T, from: u32, to: u32) -> (r: Result<
    (),
    NorFlashErrorKind,
>)
    requires
        T::spec_erase_size() >= 1,
    ensures
        r == spec_check_erase(
            T::spec_erase_size() as int,
            flash.contents().len() as int,
            from as int,
            to as int,
        ),
{
    check_erase_inner(flash.capacity(), T::erase_size(), from, to)
}

/// Return whether a write operation is within bounds and aligned to the
/// device's write granularity.
pub fn check_write<T: NorFlash>(flash: &T, offset: u32, length: usize) -> (r: Result<
    (),
    NorFlashErrorKind,
>)
    requires
        T::spec_write_size() >= 1,
    ensures
        r == spec_check(
            T::spec_write_size() as int,
            flash.contents().len() as int,
            offset as int,
            length as int,
        ),
{
    check_slice(flash, T::write_size(), offset, length)
}

fn check_slice<T: ReadNorFlash>(flash: &T, align: usize, offset: u32, length: usize) -> (r: Result<
    (),
    NorFlashErrorKind,
>)
    requires
        align >= 1,
    ensures
        r == spec_check(
            align as int,
            flash.contents().len() as int,
            offset as int,
            length as int,
        ),
{
    check_slice_inner(flash.capacity(), align, offset, length)
}

/// The read/write validation itself, on a capacity already obtained from
/// the device.
pub(crate) fn check_slice_inner(capacity: usize, align: usize, offset: u32, length: usize) -> (r:
    Result<(), NorFlashErrorKind>)
    requires
        align >= 1,
    ensures
        r == spec_check(align as int, capacity as int, offset as int, length as int),
{
    let offset = offset as usize;
    if length > capacity || offset > capacity - length {
        return Err(NorFlashErrorKind::OutOfBounds);
    }
    if offset % align != 0 || length % align != 0 {
        return Err(NorFlashErrorKind::NotAligned);
    }
    Ok(())
}

/// The erase validation itself, on a capacity already obtained from the
/// device.
pub(crate) fn check_erase_inner(capacity: usize, erase_size: usize, from: u32, to: u32) -> (r:
    Result<(), NorFlashErrorKind>)
    requires
        erase_size >= 1,
    ensures
        r == spec_check_erase(erase_size as int, capacity as int, from as int, to as int),
{
    let (from, to) = (from as usize, to as usize);
    if from > to || to > capacity {
        return Err(NorFlashErrorKind::OutOfBounds);
    }
    if from % erase_size != 0 || to % erase_size != 0 {
        return Err(NorFlashErrorKind::NotAligned);
    }
    Ok(())
}

/// Read an arbitrary `(offset, bytes.len())` range from a device whose
/// native read primitive only accepts read-size-aligned ranges: the request
/// is split into at most three aligned reads (a header block, a main run
/// and a footer block) and the requested sub-ranges are copied out. Only
/// read primitives are issued, so the device contents and its erase count
/// are untouched; a zero-length request past the single-byte-granularity
/// bypass issues no device call at all and succeeds.
fn read_stitched<S: ReadNorFlash>(storage: &mut S, offset: u32, bytes: &mut Vec<u8>) -> (r: Result<
    (),
    S::Error,
>)
    requires
        1 <= S::spec_read_size(),
        old(storage).contents().len() as int % (S::spec_read_size() as int) == 0,
        old(storage).contents().len() <= u32::MAX,
        offset + old(bytes)@.len() <= old(storage).contents().len(),
    ensures
        final(storage).contents() == old(storage).contents(),
        final(storage).erases() == old(storage).erases(),
        final(bytes)@.len() == old(bytes)@.len(),
        r is Ok ==> final(bytes)@ == old(storage).contents().subrange(
            offset as int,
            offset + old(bytes)@.len(),
        ),
        old(bytes)@.len() == 0 && S::spec_read_size() != 1 ==> r is Ok,
{
        let ghost c = storage.contents();
        let ghost off = offset as int;
        // Bypass if reads don't need to be aligned.
        let read_size = S::read_size();
        if read_size == 1 {
            return storage.read(offset, bytes);
        }
        let length = bytes.len();
        if length == 0 {
            proof {
                assert(bytes@ =~= c.subrange(off, off));
            }
            return Ok(());
        }
        let capacity = storage.capacity();
        let ghost rs = read_size as int;
        proof {
            if capacity < read_size {
                lemma_small_mod(capacity as nat, read_size as nat);
            }
        }
        // There are two cases to consider: a generic case, and a special
        // case where the request crosses no read-size boundary, so that the
        // read done for the header is all the work.
        let rs32 = read_size as u32;
        let header_start = round_down(offset, rs32);
        proof {
            lemma_round_up_is_min(off, rs, capacity as int);
        }
        let header_end = round_up(offset, rs32);
        let end = offset + (length as u32);
        let footer_start = round_down(end, rs32);
        let footer_length = end - footer_start;
        let ghost hs = header_start as int;
        let ghost he = header_end as int;
        let ghost fs = footer_start as int;
        let ghost b0 = bytes@;
        let ghost hlen: int = if hs != he {
            vstd::math::min(he - off, length as int)
        } else {
            0
        };
        if header_start != header_end {
            proof {
                lemma_multiple_gap(hs, he, rs);
                lemma_mod_add_multiples_vanish(hs, rs);
                lemma_round_up_is_min(off, rs, hs + rs);
                assert(he == hs + rs);
            }
            // Read the whole block around the start of the request, and copy
            // out the part the request begins with.
            let diff = header_end - offset;
            let header_length32 = if diff < (length as u32) {
                diff
            } else {
                length as u32
            };
            let header_length = header_length32 as usize;
            let mut tmp = new_filled(read_size, 0u8);
            match storage.read(header_start, &mut tmp) {
                Err(e) => {
                    return Err(e);
                },
                Ok(()) => {},
            }
            let tmp_offset = (offset - header_start) as usize;
            copy_from_slice_range(bytes, 0, tmp.as_slice(), tmp_offset, header_length);
            proof {
                assert(tmp@.subrange(tmp_offset as int, tmp_offset + header_length) =~= c.subrange(
                    off,
                    off + hlen,
                ));
            }
        }
        let ghost b1 = bytes@;
        proof {
            assert(b1 =~= spec_overwrite(b0, 0, c.subrange(off, off + hlen)));
        }
        if header_end > footer_start {
            // Special case: header and footer overlap, so the header read
            // already produced the whole request.
            proof {
                if hs == he {
                    lemma_round_down_is_max(off + length as int, rs, off);
                    assert(false);
                }
                if fs < he {
                    lemma_multiple_gap(fs, he, rs);
                }
                assert(off + length as int <= he);
                assert(hlen == length as int);
                assert(bytes@ =~= c.subrange(off, off + length as int));
            }
            return Ok(());
        }
        if header_end != footer_start {
            // Read the main part of the request, at once. In most scenarios,
            // this is where the quasi-totality of the read is performed.
            let main_len = (footer_start - header_end) as usize;
            let mut tmp2 = new_filled(main_len, 0u8);
            match storage.read(header_end, &mut tmp2) {
                Err(e) => {
                    return Err(e);
                },
                Ok(()) => {},
            }
            copy_from_slice_range(bytes, (header_end - offset) as usize, tmp2.as_slice(), 0, main_len);
        }
        let ghost b2 = bytes@;
        proof {
            assert(b2 =~= spec_overwrite(b1, he - off, c.subrange(he, fs)));
        }
        if footer_length != 0 {
            // Read the whole block around the end of the request, and copy
            // out the part the request ends with.
            let mut tmp3 = new_filled(read_size, 0u8);
            match storage.read(footer_start, &mut tmp3) {
                Err(e) => {
                    return Err(e);
                },
                Ok(()) => {},
            }
            copy_from_slice_range(
                bytes,
                (footer_start - offset) as usize,
                tmp3.as_slice(),
                0,
                footer_length as usize,
            );
            proof {
                assert(tmp3@.subrange(0, footer_length as int) =~= c.subrange(
                    fs,
                    off + length as int,
                ));
            }
        }
        proof {
            assert(hlen == he - off);
            assert(bytes@ =~= c.subrange(off, off + length as int));
        }
        Ok(())
}

/// An instance of [`Storage`], that performs read-modify-write operations
/// when trying to [`write`](Storage::write): each page the write touches is
/// read whole into the merge buffer, erased, patched with the new data, and
/// written back whole.
pub struct RmwNorFlashStorage<S> {
    storage: S,
    merge_buffer: Vec<u8>,
}

impl<S> RmwNorFlashStorage<S> where S: NorFlash {
    /// Instantiate a new generic [`Storage`] from a [`NorFlash`] peripheral
    /// and a merge buffer of at least the peripheral's erase size.
    ///
    /// Construction fails, before any device I/O, if the merge buffer is
    /// smaller than the erase size, or if the device reports a geometry the
    /// engine cannot operate (a zero granularity, a capacity that is not a
    /// multiple of the read or erase granularity, or a capacity past the
    /// `u32` address space).
    pub fn new(nor_flash: S, merge_buffer: Vec<u8>) -> (r: Result<Self, NorFlashErrorKind>)
        ensures
            r is Ok <==> {
                &&& 1 <= S::spec_read_size()
                &&& 1 <= S::spec_erase_size()
                &&& S::spec_erase_size() <= merge_buffer@.len()
                &&& nor_flash.contents().len() as int % (S::spec_erase_size() as int) == 0
                &&& nor_flash.contents().len() as int % (S::spec_read_size() as int) == 0
                &&& nor_flash.contents().len() <= u32::MAX
            },
            r is Ok ==> r->Ok_0.wf() && r->Ok_0.write_wf() && r->Ok_0.contents()
                == nor_flash.contents(),
            r is Err ==> r->Err_0 == NorFlashErrorKind::Other,
    {
        let read_size = S::read_size();
        let erase_size = S::erase_size();
        let capacity = nor_flash.capacity();
        if read_size < 1 || erase_size < 1 {
            return Err(NorFlashErrorKind::Other);
        }
        if merge_buffer.len() < erase_size {
            return Err(NorFlashErrorKind::Other);
        }
        if capacity % erase_size != 0 || capacity % read_size != 0 {
            return Err(NorFlashErrorKind::Other);
        }
        if capacity > u32::MAX as usize {
            return Err(NorFlashErrorKind::Other);
        }
        let mut merge_buffer = merge_buffer;
        merge_buffer.truncate(erase_size);
        Ok(Self { storage: nor_flash, merge_buffer })
    }

}

impl<S> RmwNorFlashStorage<S> where S: ReadNorFlash {
    /// Shared access to the wrapped peripheral.
    pub fn device(&self) -> (r: &S)
        ensures
            r.contents() == self.contents(),
            r.erases() == self.device_erases(),
    {
        &self.storage
    }

    /// How many erase operations the wrapped peripheral has performed.
    pub closed spec fn device_erases(&self) -> nat {
        self.storage.erases()
    }
}

impl<S> ReadStorage for RmwNorFlashStorage<S> where S: ReadNorFlash {
    type Error = S::Error;

    closed spec fn wf(&self) -> bool {
        &&& 1 <= S::spec_read_size()
        &&& self.storage.contents().len() as int % (S::spec_read_size() as int) == 0
        &&& self.storage.contents().len() <= u32::MAX
    }

    closed spec fn contents(&self) -> Seq<u8> {
        self.storage.contents()
    }

    // Read requests may be unaligned, so extra work is needed to turn them
    // into aligned requests: they are stitched from up to three aligned
    // reads, and only one if `offset` and `bytes.len()` are aligned to the
    // device's read size.
    fn read(&mut self, offset: u32, bytes: &mut Vec<u8>) -> (r: Result<(), Self::Error>)
        ensures
            final(self).device_erases() == old(self).device_erases(),
            old(bytes)@.len() == 0 && S::spec_read_size() != 1 ==> r is Ok,
    {
        read_stitched(&mut self.storage, offset, bytes)
    }

    fn capacity(&self) -> usize {
        self.storage.capacity()
    }
}

impl<S> Storage for RmwNorFlashStorage<S> where S: NorFlash {
    closed spec fn write_wf(&self) -> bool {
        &&& 1 <= S::spec_erase_size()
        &&& self.merge_buffer@.len() == S::spec_erase_size()
        &&& self.storage.contents().len() as int % (S::spec_erase_size() as int) == 0
    }

    #[verifier::rlimit(60)]
    fn write(&mut self, offset: u32, bytes: &[u8]) -> (r: Result<(), Self::Error>)
        ensures
            r is Ok ==> final(self).device_erases() == old(self).device_erases() + pages_touched(
                offset as int,
                bytes@,
                S::spec_erase_size() as int,
                old(self).contents().len() as int / (S::spec_erase_size() as int),
            ),
            bytes@.len() == 0 ==> r is Ok,
            r is Err ==> spec_write_aborted(
                old(self).contents(),
                offset as int,
                bytes@,
                S::spec_erase_size() as int,
                final(self).contents(),
            ),
    {
        let ghost c0 = self.storage.contents();
        let ghost off = offset as int;
        let ghost data = bytes@;
        let ghost e0 = self.storage.erases();
        let erase_size = S::erase_size();
        let capacity = self.storage.capacity();
        let ghost es = erase_size as int;
        // Perform read/modify/write operations on the byte slice, one
        // erase-size page at a time.
        let last_page = capacity / erase_size;
        proof {
            lemma_fundamental_div_mod(capacity as int, es);
            assert(es * (capacity as int / es) == (capacity as int / es) * es) by (nonlinear_arith);
            assert(last_page as int * es == capacity as int);
            assert(last_page as int <= capacity as int) by (nonlinear_arith)
                requires
                    es >= 1,
                    last_page as int * es == capacity as int,
                    last_page as int >= 0,
            ;
        }
        let grid = PageGrid::new(erase_size, last_page as u32);
        let mut it = grid.overlaps(bytes.len(), offset);
        proof {
            assert(c0 =~= spec_overwrite(c0, off, data.take(0)));
        }
        loop
            invariant
                it.wf(),
                it.page_size == erase_size,
                it.page_count == last_page as u32,
                it.base_address == offset,
                it.mem_len == bytes@.len(),
                self.wf(),
                self.write_wf(),
                es == S::spec_erase_size(),
                erase_size == S::spec_erase_size(),
                off == offset as int,
                data == bytes@,
                c0 == old(self).contents(),
                e0 == old(self).device_erases(),
                c0.len() == capacity as int,
                self.storage.contents().len() == c0.len(),
                off + data.len() <= c0.len(),
                last_page as int * es == capacity as int,
                last_page as int == capacity as int / es,
                last_page as u32 as int == last_page as int,
                self.storage.erases() == e0 + pages_touched(off, data, es, it.next_index as int),
                self.storage.contents() == spec_overwrite(
                    c0,
                    off,
                    data.take(covered_prefix(off, data.len() as int, es, it.next_index as int)),
                ),
            decreases it.page_count - it.next_index,
        {
            let ghost idx0 = it.next_index as int;
            let nxt = it.next();
            match nxt {
                None => {
                    proof {
                        lemma_covered_skip(off, data.len() as int, es, idx0, last_page as int);
                        lemma_covered_all(off, data.len() as int, es, last_page as int);
                        lemma_pages_touched_skip(off, data, es, idx0, last_page as int);
                        assert(data.take(data.len() as int) =~= data);
                    }
                    return Ok(());
                },
                Some(ov) => {
                    let ghost k = it.next_index as int - 1;
                    let ghost c1 = self.storage.contents();
                    proof {
                        lemma_covered_skip(off, data.len() as int, es, idx0, k);
                        lemma_pages_touched_skip(off, data, es, idx0, k);
                        lemma_mul_inequality(k + 1, last_page as int, es);
                        assert((k + 1) * es == k * es + es) by (nonlinear_arith);
                    }
                    let page_start = ov.page.start;
                    let page_end = ov.page.end();
                    // Read the whole page into the merge buffer, even though
                    // only part of it changes: the erase below resets it all.
                    match self.storage.read(page_start, &mut self.merge_buffer) {
                        Err(e) => {
                            proof {
                                let target = spec_overwrite(
                                    c0,
                                    off,
                                    data.take(covered_prefix(off, data.len() as int, es, k)),
                                );
                                assert forall|i: int|
                                    0 <= i < c0.len() && !(k * es <= i < k * es + es)
                                        implies self.storage.contents()[i] == target[i] by {}
                                assert(spec_aborted_write(
                                    c0,
                                    off,
                                    data,
                                    es,
                                    self.storage.contents(),
                                    k,
                                ));
                                assert(0 <= k <= c0.len() as int / es);
                                assert(spec_write_aborted(c0, off, data, es, self.storage.contents()));
                            }
                            return Err(e);
                        },
                        Ok(()) => {},
                    }
                    // Writing twice to a word is not allowed here, so the
                    // page has to be erased.
                    match self.storage.erase(page_start, page_end) {
                        Err(e) => {
                            proof {
                                let target = spec_overwrite(
                                    c0,
                                    off,
                                    data.take(covered_prefix(off, data.len() as int, es, k)),
                                );
                                assert forall|i: int|
                                    0 <= i < c0.len() && !(k * es <= i < k * es + es)
                                        implies self.storage.contents()[i] == target[i] by {}
                                assert(spec_aborted_write(
                                    c0,
                                    off,
                                    data,
                                    es,
                                    self.storage.contents(),
                                    k,
                                ));
                                assert(0 <= k <= c0.len() as int / es);
                                assert(spec_write_aborted(c0, off, data, es, self.storage.contents()));
                            }
                            return Err(e);
                        },
                        Ok(()) => {},
                    }
                    // Patch the new data into the page image.
                    let offset_into_page = (ov.addr - page_start) as usize;
                    copy_from_slice_range(
                        &mut self.merge_buffer,
                        offset_into_page,
                        bytes,
                        ov.mem_start,
                        ov.mem_end - ov.mem_start,
                    );
                    // Write the patched page image back.
                    match self.storage.write(page_start, self.merge_buffer.as_slice()) {
                        Err(e) => {
                            proof {
                                let target = spec_overwrite(
                                    c0,
                                    off,
                                    data.take(covered_prefix(off, data.len() as int, es, k)),
                                );
                                assert forall|i: int|
                                    0 <= i < c0.len() && !(k * es <= i < k * es + es)
                                        implies self.storage.contents()[i] == target[i] by {}
                                assert(spec_aborted_write(
                                    c0,
                                    off,
                                    data,
                                    es,
                                    self.storage.contents(),
                                    k,
                                ));
                                assert(0 <= k <= c0.len() as int / es);
                                assert(spec_write_aborted(c0, off, data, es, self.storage.contents()));
                            }
                            return Err(e);
                        },
                        Ok(()) => {},
                    }
                    proof {
                        let a = overlap_abs_start(off, es, k);
                        let e = overlap_abs_end(off, data.len() as int, es, k);
                        let seg = data.subrange(a - off, e - off);
                        let pagebuf = c1.subrange(k * es, k * es + es);
                        lemma_erase_then_write(
                            c1,
                            k * es,
                            spec_overwrite(pagebuf, a - k * es, seg),
                        );
                        lemma_overwrite_via_page_image(c1, k * es, es, a, seg);
                        lemma_page_step(
                            c0,
                            off,
                            data,
                            es,
                            k,
                            c1,
                            self.storage.contents(),
                        );
                    }
                },
            }
        }
    }
}

/// The part of a write that falls on page `k` is a bitwise subset of what
/// the contents `c` store there, so it can be NOR-written without erasing
/// the page.
pub open spec fn page_write_is_subset(c: Seq<u8>, off: int, data: Seq<u8>, ps: int, k: int) -> bool {
    crate::bytes::spec_is_bit_subset(
        data.subrange(
            overlap_abs_start(off, ps, k) - off,
            overlap_abs_end(off, data.len() as int, ps, k) - off,
        ),
        c.subrange(overlap_abs_start(off, ps, k), overlap_abs_end(off, data.len() as int, ps, k)),
    )
}

/// How many pages with index below `n` the write of `data` at `off` touches
/// without its data being a bitwise subset of what the page stores: each
/// such page costs exactly one erase.
pub open spec fn erases_needed(c: Seq<u8>, off: int, data: Seq<u8>, ps: int, n: int) -> int
    decreases n,
{
    if n <= 0 {
        0
    } else {
        erases_needed(c, off, data, ps, n - 1) + if page_overlaps(off, data.len() as int, ps, n - 1)
            && !page_write_is_subset(c, off, data, ps, n - 1) {
            1int
        } else {
            0int
        }
    }
}

/// How many pages with index below `n` the write of `data` at `off`
/// touches: the read-modify-write cycle erases each of them once.
pub open spec fn pages_touched(off: int, data: Seq<u8>, ps: int, n: int) -> int
    decreases n,
{
    if n <= 0 {
        0
    } else {
        pages_touched(off, data, ps, n - 1) + if page_overlaps(off, data.len() as int, ps, n - 1) {
            1int
        } else {
            0int
        }
    }
}

/// Pages the write does not touch are not erased.
pub proof fn lemma_pages_touched_skip(off: int, data: Seq<u8>, ps: int, n0: int, n1: int)
    requires
        0 <= n0 <= n1,
        forall|j: int| n0 <= j < n1 ==> !page_overlaps(off, data.len() as int, ps, j),
    ensures
        pages_touched(off, data, ps, n1) == pages_touched(off, data, ps, n0),
    decreases n1 - n0,
{
    if n0 < n1 {
        lemma_pages_touched_skip(off, data, ps, n0, n1 - 1);
    }
}

/// The subset optimization never costs extra: a multiwrite engine write
/// erases at most as many pages as the plain read-modify-write cycle, which
/// erases every page it touches.
pub proof fn lemma_subset_optimization_saves_erases(
    c: Seq<u8>,
    off: int,
    data: Seq<u8>,
    ps: int,
    n: int,
)
    ensures
        erases_needed(c, off, data, ps, n) <= pages_touched(off, data, ps, n),
    decreases n,
{
    if n > 0 {
        lemma_subset_optimization_saves_erases(c, off, data, ps, n - 1);
    }
}

/// Pages the write does not touch never cost an erase.
pub proof fn lemma_erases_needed_skip(c: Seq<u8>, off: int, data: Seq<u8>, ps: int, n0: int, n1: int)
    requires
        0 <= n0 <= n1,
        forall|j: int| n0 <= j < n1 ==> !page_overlaps(off, data.len() as int, ps, j),
    ensures
        erases_needed(c, off, data, ps, n1) == erases_needed(c, off, data, ps, n0),
    decreases n1 - n0,
{
    if n0 < n1 {
        lemma_erases_needed_skip(c, off, data, ps, n0, n1 - 1);
    }
}

/// A write never needs a negative number of erases.
proof fn lemma_erases_needed_nonneg(c: Seq<u8>, off: int, data: Seq<u8>, ps: int, n: int)
    ensures
        erases_needed(c, off, data, ps, n) >= 0,
    decreases n,
{
    if n > 0 {
        lemma_erases_needed_nonneg(c, off, data, ps, n - 1);
    }
}

/// Scanning more pages never lowers the number of erases needed.
proof fn lemma_erases_needed_mono(c: Seq<u8>, off: int, data: Seq<u8>, ps: int, n0: int, n1: int)
    requires
        0 <= n0 <= n1,
    ensures
        erases_needed(c, off, data, ps, n1) >= erases_needed(c, off, data, ps, n0),
    decreases n1 - n0,
{
    if n0 < n1 {
        lemma_erases_needed_mono(c, off, data, ps, n0, n1 - 1);
    }
}

/// Subset optimization, first half: if the written data is a bitwise subset
/// of what the contents already store over the whole written range, no page
/// needs an erase — combined with the multiwrite engine's `write` contract,
/// such a write leaves the device's erase count unchanged.
pub proof fn lemma_subset_write_needs_no_erase(
    c: Seq<u8>,
    off: int,
    data: Seq<u8>,
    ps: int,
    n: int,
)
    requires
        ps >= 1,
        0 <= off,
        off + data.len() <= c.len(),
        crate::bytes::spec_is_bit_subset(data, c.subrange(off, off + data.len())),
        n >= 0,
    ensures
        erases_needed(c, off, data, ps, n) == 0,
    decreases n,
{
    if n > 0 {
        lemma_subset_write_needs_no_erase(c, off, data, ps, n - 1);
        let k = n - 1;
        if page_overlaps(off, data.len() as int, ps, k) {
            let a = overlap_abs_start(off, ps, k);
            let e = overlap_abs_end(off, data.len() as int, ps, k);
            let seg = data.subrange(a - off, e - off);
            let stored = c.subrange(a, e);
            assert forall|i: int| 0 <= i < seg.len() implies (seg[i] & stored[i]) == seg[i] by {
                assert(data[a - off + i] & c.subrange(off, off + data.len())[a - off + i] == data[a
                    - off + i]);
            }
            assert(page_write_is_subset(c, off, data, ps, k));
        }
    }
}

/// Subset optimization, second half: if some written byte tries to set a
/// bit that its page does not store, that page must be erased — combined
/// with the multiwrite engine's `write` contract, such a write increases
/// the device's erase count.
pub proof fn lemma_nonsubset_write_needs_erase(
    c: Seq<u8>,
    off: int,
    data: Seq<u8>,
    ps: int,
    n: int,
    i: int,
)
    requires
        ps >= 1,
        0 <= off,
        off + data.len() <= c.len(),
        0 <= i < data.len(),
        data[i] & c[off + i] != data[i],
        off + data.len() <= n * ps,
    ensures
        erases_needed(c, off, data, ps, n) >= 1,
{
    let k = (off + i) / ps;
    lemma_fundamental_div_mod(off + i, ps);
    lemma_mod_bound(off + i, ps);
    assert(ps * k == k * ps) by (nonlinear_arith);
    assert(k >= 0) by (nonlinear_arith)
        requires
            ps >= 1,
            k * ps + ps > off + i >= 0,
    ;
    assert(k < n) by (nonlinear_arith)
        requires
            ps >= 1,
            k * ps <= off + i,
            off + i < n * ps,
    ;
    assert(page_overlaps(off, data.len() as int, ps, k));
    let a = overlap_abs_start(off, ps, k);
    let e = overlap_abs_end(off, data.len() as int, ps, k);
    assert(!page_write_is_subset(c, off, data, ps, k)) by {
        let j = off + i - a;
        assert(data.subrange(a - off, e - off)[j] == data[i]);
        assert(c.subrange(a, e)[j] == c[off + i]);
    };
    lemma_erases_needed_nonneg(c, off, data, ps, k);
    assert(erases_needed(c, off, data, ps, k + 1) >= 1);
    lemma_erases_needed_mono(c, off, data, ps, k + 1, n);
}

/// A multiple of `es` is also a multiple of any divisor `ws` of `es`.
proof fn lemma_multiple_of_divisor(x: int, es: int, ws: int)
    requires
        ws >= 1,
        es % ws == 0,
    ensures
        (x * es) % ws == 0,
{
    lemma_fundamental_div_mod(es, ws);
    let q = es / ws;
    assert(x * es == (x * q) * ws) by (nonlinear_arith)
        requires
            es == ws * q,
    ;
    lemma_mod_multiples_basic(x * q, ws);
}

/// Writing a prefix of the buffer that ends at or before page `k` leaves
/// page `k` unchanged.
proof fn lemma_prefix_preserves_page(
    c0: Seq<u8>,
    off: int,
    data: Seq<u8>,
    ps: int,
    k: int,
    c1: Seq<u8>,
)
    requires
        ps >= 1,
        0 <= off,
        off + data.len() <= c0.len(),
        0 <= k,
        k * ps + ps <= c0.len(),
        page_overlaps(off, data.len() as int, ps, k),
        c1 == spec_overwrite(c0, off, data.take(covered_prefix(off, data.len() as int, ps, k))),
    ensures
        c1.subrange(k * ps, k * ps + ps) == c0.subrange(k * ps, k * ps + ps),
{
    assert(c1.subrange(k * ps, k * ps + ps) =~= c0.subrange(k * ps, k * ps + ps));
}

/// An instance of [`Storage`] with the same contract as
/// [`RmwNorFlashStorage`], for peripherals that allow repeated writes to
/// the same word ([`MultiwriteNorFlash`]): where the new data is a bitwise
/// subset of what a page already stores, the page is not erased, and the
/// data is written directly, padded with all-ones bytes to the write
/// granularity.
pub struct RmwMultiwriteNorFlashStorage<S> {
    storage: S,
    merge_buffer: Vec<u8>,
}

impl<S> RmwMultiwriteNorFlashStorage<S> where S: MultiwriteNorFlash {
    /// Instantiate a new generic [`Storage`] from a [`MultiwriteNorFlash`]
    /// peripheral and a merge buffer of at least the peripheral's erase
    /// size.
    ///
    /// Construction fails, before any device I/O, if the merge buffer is
    /// smaller than the erase size, or if the device reports a geometry the
    /// engine cannot operate (a zero granularity, an erase size that is not
    /// a multiple of the write size, a capacity that is not a multiple of
    /// the erase size, or a capacity past the `u32` address space).
    pub fn new(nor_flash: S, merge_buffer: Vec<u8>) -> (r: Result<Self, NorFlashErrorKind>)
        ensures
            r is Ok <==> {
                &&& 1 <= S::spec_read_size()
                &&& 1 <= S::spec_write_size()
                &&& 1 <= S::spec_erase_size()
                &&& S::spec_erase_size() <= merge_buffer@.len()
                &&& S::spec_erase_size() as int % (S::spec_write_size() as int) == 0
                &&& nor_flash.contents().len() as int % (S::spec_erase_size() as int) == 0
                &&& nor_flash.contents().len() as int % (S::spec_read_size() as int) == 0
                &&& nor_flash.contents().len() <= u32::MAX
            },
            r is Ok ==> r->Ok_0.wf() && r->Ok_0.write_wf() && r->Ok_0.contents()
                == nor_flash.contents() && r->Ok_0.device_erases() == nor_flash.erases(),
            r is Err ==> r->Err_0 == NorFlashErrorKind::Other,
    {
        let read_size = S::read_size();
        let write_size = S::write_size();
        let erase_size = S::erase_size();
        let capacity = nor_flash.capacity();
        if read_size < 1 || write_size < 1 || erase_size < 1 {
            return Err(NorFlashErrorKind::Other);
        }
        if merge_buffer.len() < erase_size {
            return Err(NorFlashErrorKind::Other);
        }
        if erase_size % write_size != 0 || capacity % erase_size != 0 || capacity % read_size != 0 {
            return Err(NorFlashErrorKind::Other);
        }
        if capacity > u32::MAX as usize {
            return Err(NorFlashErrorKind::Other);
        }
        let mut merge_buffer = merge_buffer;
        merge_buffer.truncate(erase_size);
        Ok(Self { storage: nor_flash, merge_buffer })
    }

}

impl<S> RmwMultiwriteNorFlashStorage<S> where S: ReadNorFlash {
    /// Shared access to the wrapped peripheral.
    pub fn device(&self) -> (r: &S)
        ensures
            r.contents() == self.contents(),
            r.erases() == self.device_erases(),
    {
        &self.storage
    }

    /// How many erase operations the wrapped peripheral has performed.
    pub closed spec fn device_erases(&self) -> nat {
        self.storage.erases()
    }
}

impl<S> ReadStorage for RmwMultiwriteNorFlashStorage<S> where S: ReadNorFlash {
    type Error = S::Error;

    closed spec fn wf(&self) -> bool {
        &&& 1 <= S::spec_read_size()
        &&& self.storage.contents().len() as int % (S::spec_read_size() as int) == 0
        &&& self.storage.contents().len() <= u32::MAX
    }

    closed spec fn contents(&self) -> Seq<u8> {
        self.storage.contents()
    }

    // Reads carry the same relaxed contract as on the plain engine:
    // unaligned requests are stitched from aligned device reads.
    fn read(&mut self, offset: u32, bytes: &mut Vec<u8>) -> (r: Result<(), Self::Error>)
        ensures
            final(self).device_erases() == old(self).device_erases(),
            old(bytes)@.len() == 0 && S::spec_read_size() != 1 ==> r is Ok,
    {
        read_stitched(&mut self.storage, offset, bytes)
    }

    fn capacity(&self) -> usize {
        self.storage.capacity()
    }
}

impl<S> Storage for RmwMultiwriteNorFlashStorage<S> where S: MultiwriteNorFlash {
    closed spec fn write_wf(&self) -> bool {
        &&& 1 <= S::spec_write_size()
        &&& 1 <= S::spec_erase_size()
        &&& S::spec_erase_size() as int % (S::spec_write_size() as int) == 0
        &&& self.merge_buffer@.len() == S::spec_erase_size()
        &&& self.storage.contents().len() as int % (S::spec_erase_size() as int) == 0
        &&& self.storage.contents().len() <= u32::MAX
    }

    #[verifier::rlimit(60)]
    fn write(&mut self, offset: u32, bytes: &[u8]) -> (r: Result<(), Self::Error>)
        ensures
            r is Ok ==> final(self).device_erases() == old(self).device_erases() + erases_needed(
                old(self).contents(),
                offset as int,
                bytes@,
                S::spec_erase_size() as int,
                old(self).contents().len() as int / (S::spec_erase_size() as int),
            ),
            bytes@.len() == 0 ==> r is Ok,
            r is Err ==> spec_write_aborted(
                old(self).contents(),
                offset as int,
                bytes@,
                S::spec_erase_size() as int,
                final(self).contents(),
            ),
    {
        let ghost c0 = self.storage.contents();
        let ghost off = offset as int;
        let ghost data = bytes@;
        let ghost e0 = self.storage.erases();
        let erase_size = S::erase_size();
        let write_size = S::write_size();
        let capacity = self.storage.capacity();
        let ghost es = erase_size as int;
        let ghost ws = write_size as int;
        // Perform read/modify/write operations on the byte slice, one
        // erase-size page at a time.
        let last_page = capacity / erase_size;
        proof {
            lemma_fundamental_div_mod(capacity as int, es);
            assert(es * (capacity as int / es) == (capacity as int / es) * es) by (nonlinear_arith);
            assert(last_page as int * es == capacity as int);
            assert(last_page as int <= capacity as int) by (nonlinear_arith)
                requires
                    es >= 1,
                    last_page as int * es == capacity as int,
                    last_page as int >= 0,
            ;
        }
        let grid = PageGrid::new(erase_size, last_page as u32);
        let mut it = grid.overlaps(bytes.len(), offset);
        proof {
            assert(c0 =~= spec_overwrite(c0, off, data.take(0)));
        }
        loop
            invariant
                it.wf(),
                it.page_size == erase_size,
                it.page_count == last_page as u32,
                it.base_address == offset,
                it.mem_len == bytes@.len(),
                self.wf(),
                self.write_wf(),
                es == S::spec_erase_size(),
                erase_size == S::spec_erase_size(),
                ws == S::spec_write_size(),
                write_size == S::spec_write_size(),
                off == offset as int,
                data == bytes@,
                c0 == old(self).contents(),
                e0 == old(self).device_erases(),
                c0.len() == capacity as int,
                self.storage.contents().len() == c0.len(),
                off + data.len() <= c0.len(),
                last_page as int * es == capacity as int,
                last_page as int == capacity as int / es,
                last_page as u32 as int == last_page as int,
                self.storage.contents() == spec_overwrite(
                    c0,
                    off,
                    data.take(covered_prefix(off, data.len() as int, es, it.next_index as int)),
                ),
                self.storage.erases() == e0 + erases_needed(
                    c0,
                    off,
                    data,
                    es,
                    it.next_index as int,
                ),
            decreases it.page_count - it.next_index,
        {
            let ghost idx0 = it.next_index as int;
            let nxt = it.next();
            match nxt {
                None => {
                    proof {
                        lemma_covered_skip(off, data.len() as int, es, idx0, last_page as int);
                        lemma_covered_all(off, data.len() as int, es, last_page as int);
                        lemma_erases_needed_skip(c0, off, data, es, idx0, last_page as int);
                        assert(data.take(data.len() as int) =~= data);
                    }
                    return Ok(());
                },
                Some(ov) => {
                    let ghost k = it.next_index as int - 1;
                    let ghost c1 = self.storage.contents();
                    proof {
                        lemma_covered_skip(off, data.len() as int, es, idx0, k);
                        lemma_erases_needed_skip(c0, off, data, es, idx0, k);
                        lemma_mul_inequality(k + 1, last_page as int, es);
                        assert((k + 1) * es == k * es + es) by (nonlinear_arith);
                    }
                    let page_start = ov.page.start;
                    let page_end = ov.page.end();
                    // Read the whole page into the merge buffer.
                    match self.storage.read(page_start, &mut self.merge_buffer) {
                        Err(e) => {
                            proof {
                                let target = spec_overwrite(
                                    c0,
                                    off,
                                    data.take(covered_prefix(off, data.len() as int, es, k)),
                                );
                                assert forall|i: int|
                                    0 <= i < c0.len() && !(k * es <= i < k * es + es)
                                        implies self.storage.contents()[i] == target[i] by {}
                                assert(spec_aborted_write(
                                    c0,
                                    off,
                                    data,
                                    es,
                                    self.storage.contents(),
                                    k,
                                ));
                                assert(0 <= k <= c0.len() as int / es);
                                assert(spec_write_aborted(c0, off, data, es, self.storage.contents()));
                            }
                            return Err(e);
                        },
                        Ok(()) => {},
                    }
                    let ghost a = overlap_abs_start(off, es, k);
                    let ghost e = overlap_abs_end(off, data.len() as int, es, k);
                    let ghost seg = data.subrange(a - off, e - off);
                    proof {
                        lemma_prefix_preserves_page(c0, off, data, es, k, c1);
                    }
                    let count = ov.mem_end - ov.mem_start;
                    let offset_into_page = (ov.addr - page_start) as usize;
                    // Check if the data block can be written directly, under
                    // the limitations imposed by NOR flash: only 1 bits can
                    // change, and only to 0.
                    let is_subset = crate::bytes::is_bit_subset(
                        bytes,
                        ov.mem_start,
                        &self.merge_buffer,
                        offset_into_page,
                        count,
                    );
                    proof {
                        assert(bytes@.subrange(ov.mem_start as int, ov.mem_start + count) =~= seg);
                        assert(self.merge_buffer@.subrange(
                            offset_into_page as int,
                            offset_into_page + count,
                        ) =~= c1.subrange(a, e));
                        assert(c1.subrange(a, e) =~= c0.subrange(a, e));
                        assert(is_subset == page_write_is_subset(c0, off, data, es, k));
                    }
                    if is_subset {
                        // Skip the erase: pad the data with all-ones bytes to
                        // the write granularity (ANDing with all-ones changes
                        // nothing) and write it in one aligned operation.
                        proof {
                            if erase_size < write_size {
                                lemma_small_mod(erase_size as nat, write_size as nat);
                            }
                            assert(ws <= es);
                            lemma_multiple_of_divisor(k, es, ws);
                            lemma_multiple_of_divisor(k + 1, es, ws);
                            lemma_round_down_is_max(ov.addr as int, ws, k * es);
                            lemma_round_up_is_min(e, ws, k * es + es);
                            lemma_round_up_props(e, ws);
                            lemma_round_down_props(ov.addr as int, ws);
                        }
                        let w_start = round_down(ov.addr, write_size as u32);
                        let w_end = round_up(ov.addr + (count as u32), write_size as u32);
                        let pad_len = (w_end - w_start) as usize;
                        let ghost m0 = self.merge_buffer@;
                        crate::bytes::fill_range(&mut self.merge_buffer, 0, pad_len, 0xff);
                        copy_from_slice_range(
                            &mut self.merge_buffer,
                            (ov.addr - w_start) as usize,
                            bytes,
                            ov.mem_start,
                            count,
                        );
                        let ghost padded = spec_overwrite(
                            Seq::new(pad_len as nat, |i: int| 0xffu8),
                            a - w_start as int,
                            seg,
                        );
                        proof {
                            assert(self.merge_buffer@.subrange(0, pad_len as int) =~= padded);
                        }
                        match self.storage.write(
                            w_start,
                            vstd::slice::slice_subrange(self.merge_buffer.as_slice(), 0, pad_len),
                        ) {
                            Err(e) => {
                                proof {
                                    let target = spec_overwrite(
                                        c0,
                                        off,
                                        data.take(covered_prefix(off, data.len() as int, es, k)),
                                    );
                                    assert forall|i: int|
                                        0 <= i < c0.len() && !(k * es <= i < k * es + es)
                                            implies self.storage.contents()[i] == target[i] by {}
                                    assert(spec_aborted_write(
                                        c0,
                                        off,
                                        data,
                                        es,
                                        self.storage.contents(),
                                        k,
                                    ));
                                    assert(0 <= k <= c0.len() as int / es);
                                    assert(spec_write_aborted(c0, off, data, es, self.storage.contents()));
                                }
                                return Err(e);
                            },
                            Ok(()) => {},
                        }
                        proof {
                            crate::bytes::lemma_and_write_subset(
                                c1,
                                w_start as int,
                                a,
                                seg,
                                pad_len as int,
                            );
                            lemma_page_step(c0, off, data, es, k, c1, self.storage.contents());
                        }
                    } else {
                        // Not a subset: fall back to the full
                        // read-erase-modify-write sequence.
                        match self.storage.erase(page_start, page_end) {
                            Err(e) => {
                                proof {
                                    let target = spec_overwrite(
                                        c0,
                                        off,
                                        data.take(covered_prefix(off, data.len() as int, es, k)),
                                    );
                                    assert forall|i: int|
                                        0 <= i < c0.len() && !(k * es <= i < k * es + es)
                                            implies self.storage.contents()[i] == target[i] by {}
                                    assert(spec_aborted_write(
                                        c0,
                                        off,
                                        data,
                                        es,
                                        self.storage.contents(),
                                        k,
                                    ));
                                    assert(0 <= k <= c0.len() as int / es);
                                    assert(spec_write_aborted(c0, off, data, es, self.storage.contents()));
                                }
                                return Err(e);
                            },
                            Ok(()) => {},
                        }
                        copy_from_slice_range(
                            &mut self.merge_buffer,
                            offset_into_page,
                            bytes,
                            ov.mem_start,
                            count,
                        );
                        match self.storage.write(page_start, self.merge_buffer.as_slice()) {
                            Err(e) => {
                                proof {
                                    let target = spec_overwrite(
                                        c0,
                                        off,
                                        data.take(covered_prefix(off, data.len() as int, es, k)),
                                    );
                                    assert forall|i: int|
                                        0 <= i < c0.len() && !(k * es <= i < k * es + es)
                                            implies self.storage.contents()[i] == target[i] by {}
                                    assert(spec_aborted_write(
                                        c0,
                                        off,
                                        data,
                                        es,
                                        self.storage.contents(),
                                        k,
                                    ));
                                    assert(0 <= k <= c0.len() as int / es);
                                    assert(spec_write_aborted(c0, off, data, es, self.storage.contents()));
                                }
                                return Err(e);
                            },
                            Ok(()) => {},
                        }
                        proof {
                            let pagebuf = c1.subrange(k * es, k * es + es);
                            lemma_erase_then_write(
                                c1,
                                k * es,
                                spec_overwrite(pagebuf, a - k * es, seg),
                            );
                            lemma_overwrite_via_page_image(c1, k * es, es, a, seg);
                            lemma_page_step(c0, off, data, es, k, c1, self.storage.contents());
                        }
                    }
                },
            }
        }
    }
}

/// How many leading bytes of a buffer placed at `base` fall on the pages
/// with index below `n` of a `ps`-byte page grid. This measures a
/// page-by-page write's progress through the buffer.
pub open spec fn covered_prefix(base: int, len: int, ps: int, n: int) -> int {
    if n * ps - base < 0 {
        0
    } else if n * ps - base > len {
        len
    } else {
        n * ps - base
    }
}

/// The contents `c` of a device after a page-by-page write of `data` at
/// `off` over `c0` stopped while processing page `n`: outside page `n` the
/// contents show `c0` with the data prefix that falls on pages below `n`
/// written — pages fully processed earlier keep their new content, pages
/// not yet reached keep their old content — while page `n` itself may be
/// left in any partially processed state.
pub open spec fn spec_aborted_write(
    c0: Seq<u8>,
    off: int,
    data: Seq<u8>,
    ps: int,
    c: Seq<u8>,
    n: int,
) -> bool {
    &&& c.len() == c0.len()
    &&& forall|i: int|
        0 <= i < c.len() && !(n * ps <= i < n * ps + ps) ==> c[i] == spec_overwrite(
            c0,
            off,
            data.take(covered_prefix(off, data.len() as int, ps, n)),
        )[i]
}

/// The contents `c` are a legal outcome of a failed page-by-page write of
/// `data` at `off` over `c0`: some page was being processed when the write
/// stopped, pages fully processed earlier keep their new content, pages not
/// yet reached keep their old content, and no rollback is attempted.
pub open spec fn spec_write_aborted(c0: Seq<u8>, off: int, data: Seq<u8>, ps: int, c: Seq<u8>) -> bool {
    exists|n: int|
        0 <= n <= c0.len() as int / ps && #[trigger] spec_aborted_write(c0, off, data, ps, c, n)
}

/// Skipping pages that the buffer does not overlap makes no progress
/// through the buffer.
pub proof fn lemma_covered_skip(base: int, len: int, ps: int, n0: int, n1: int)
    requires
        ps >= 1,
        len >= 0,
        base >= 0,
        0 <= n0 <= n1,
        forall|j: int| n0 <= j < n1 ==> !page_overlaps(base, len, ps, j),
    ensures
        covered_prefix(base, len, ps, n1) == covered_prefix(base, len, ps, n0),
    decreases n1 - n0,
{
    if n0 < n1 {
        assert(!page_overlaps(base, len, ps, n0));
        assert((n0 + 1) * ps == n0 * ps + ps) by (nonlinear_arith);
        assert(covered_prefix(base, len, ps, n0 + 1) == covered_prefix(base, len, ps, n0));
        lemma_covered_skip(base, len, ps, n0 + 1, n1);
    }
}

/// Once the scan has passed the whole buffer, the progress is the whole
/// buffer.
pub proof fn lemma_covered_all(base: int, len: int, ps: int, n: int)
    requires
        len >= 0,
        base + len <= n * ps,
    ensures
        covered_prefix(base, len, ps, n) == len,
{
}

/// One read-modify-write page step: if the contents so far equal the
/// original with the buffer's covered prefix written, and the overlap with
/// page `k` is now overwritten in place, the covered prefix has grown to
/// include page `k`.
pub proof fn lemma_page_step(
    c0: Seq<u8>,
    off: int,
    data: Seq<u8>,
    ps: int,
    k: int,
    c1: Seq<u8>,
    c2: Seq<u8>,
)
    requires
        ps >= 1,
        0 <= off,
        off + data.len() <= c0.len(),
        0 <= k,
        k * ps + ps <= c0.len(),
        page_overlaps(off, data.len() as int, ps, k),
        c1 == spec_overwrite(c0, off, data.take(covered_prefix(off, data.len() as int, ps, k))),
        c2 == spec_overwrite(
            c1,
            overlap_abs_start(off, ps, k),
            data.subrange(
                overlap_abs_start(off, ps, k) - off,
                overlap_abs_end(off, data.len() as int, ps, k) - off,
            ),
        ),
    ensures
        c2 == spec_overwrite(
            c0,
            off,
            data.take(covered_prefix(off, data.len() as int, ps, k + 1)),
        ),
{
    let len = data.len() as int;
    let a = overlap_abs_start(off, ps, k);
    let e = overlap_abs_end(off, len, ps, k);
    let p = covered_prefix(off, len, ps, k);
    let p1 = covered_prefix(off, len, ps, k + 1);
    assert((k + 1) * ps == k * ps + ps) by (nonlinear_arith);
    assert(off + p == a);
    assert(off + p1 == e);
    let target = spec_overwrite(c0, off, data.take(p1));
    assert forall|i: int| 0 <= i < c0.len() implies c2[i] == target[i] by {}
    assert(c2 =~= target);
}

} // verus!
