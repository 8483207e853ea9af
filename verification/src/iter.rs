//! Iterator producing the overlaps between a byte buffer placed at some
//! base address and the pages of a fixed-granularity page grid.

use crate::nor_flash::Page;
use crate::Region;
use vstd::arithmetic::div_mod::{
    lemma_div_is_ordered, lemma_div_multiples_vanish, lemma_fundamental_div_mod, lemma_mod_bound,
};
use vstd::arithmetic::mul::lemma_mul_inequality;
use vstd::math::{max, min};
use vstd::prelude::*;

verus! {

/// Page `k` of a `page_size`-grid overlaps the range that starts at
/// `base` and is `len` bytes long. Ranges and pages that share only a
/// boundary (or are empty) do not overlap.
pub open spec fn page_overlaps(base: int, len: int, page_size: int, k: int) -> bool {
    &&& len > 0
    &&& k * page_size < base + len
    &&& k * page_size + page_size > base
}

/// The absolute address where the overlap of page `k` with a range based
/// at `base` begins: the larger of the two start addresses.
pub open spec fn overlap_abs_start(base: int, page_size: int, k: int) -> int {
    max(base, k * page_size)
}

/// The absolute address just past the overlap of page `k` with the range
/// `[base, base + len)`: the smaller of the two end addresses.
pub open spec fn overlap_abs_end(base: int, len: int, page_size: int, k: int) -> int {
    min(base + len, k * page_size + page_size)
}

/// One overlap yielded by [`OverlapIterator`]: the buffer sub-range
/// `[mem_start, mem_end)` falls on `page`, starting at absolute address
/// `addr`.
pub struct Overlap {
    /// Index into the buffer where the overlap begins.
    pub mem_start: usize,
    /// Index into the buffer just past the overlap.
    pub mem_end: usize,
    /// The page the overlap falls on.
    pub page: Page,
    /// Absolute address where the overlap begins: the larger of the base
    /// address and the page's start.
    pub addr: u32,
}

/// `ov` describes exactly the overlap of page `k` with the range
/// `[base, base + len)`.
pub open spec fn overlap_for(ov: Overlap, base: int, len: int, page_size: int, k: int) -> bool {
    &&& ov.page.start == k * page_size
    &&& ov.page.size == page_size
    &&& ov.addr == overlap_abs_start(base, page_size, k)
    &&& ov.mem_start == overlap_abs_start(base, page_size, k) - base
    &&& ov.mem_end == overlap_abs_end(base, len, page_size, k) - base
}

/// Iterator producing buffer/page overlaps, in ascending address order.
/// Pages that the buffer does not overlap are skipped without being
/// yielded; an empty buffer yields nothing.
pub struct OverlapIterator {
    /// Length of the byte buffer.
    pub mem_len: usize,
    /// Absolute address at which the buffer is placed.
    pub base_address: u32,
    /// Size of every page of the grid.
    pub page_size: usize,
    /// Number of pages in the grid.
    pub page_count: u32,
    /// Index of the next page to be examined.
    pub next_index: u32,
}

/// Trait allowing a description of a page grid to be turned into an
/// [`OverlapIterator`] over a buffer placed at a base address.
pub trait IterableByOverlaps: Sized {
    /// The grid's page size, as a specification-level value.
    spec fn spec_page_size(&self) -> usize;

    /// The grid's page count, as a specification-level value.
    spec fn spec_page_count(&self) -> u32;

    /// Obtain an [`OverlapIterator`] over the overlaps of a `mem_len`-byte
    /// buffer placed at `base_address` with the pages of `self`.
    fn overlaps(self, mem_len: usize, base_address: u32) -> (it: OverlapIterator)
        requires
            base_address + mem_len <= u32::MAX,
            self.spec_page_count() * self.spec_page_size() <= u32::MAX,
        ensures
            it.wf(),
            it.mem_len == mem_len,
            it.base_address == base_address,
            it.page_size == self.spec_page_size(),
            it.page_count == self.spec_page_count(),
            it.next_index == 0,
    ;
}

/// Partition completeness: over a grid of `pc` pages of `ps` bytes that
/// covers the range `[base, base + len)`, the overlapping pages are exactly
/// a contiguous run of page indices; the first overlap begins at the first
/// byte of the range, the last overlap ends at its last byte, consecutive
/// overlaps are adjacent (each ends exactly where the next begins), and
/// every overlap is nonempty. Together these say that the sub-ranges the
/// [`OverlapIterator`] yields are non-overlapping, collectively cover all
/// `len` bytes, and appear in ascending address order.
pub proof fn lemma_overlap_partition(base: int, len: int, ps: int, pc: int)
    requires
        ps >= 1,
        len >= 1,
        base >= 0,
        base + len <= pc * ps,
    ensures
        ({
            let k_lo = base / ps;
            let k_hi = (base + len - 1) / ps + 1;
            &&& 0 <= k_lo < k_hi <= pc
            &&& forall|k: int| page_overlaps(base, len, ps, k) <==> k_lo <= k < k_hi
            &&& overlap_abs_start(base, ps, k_lo) == base
            &&& overlap_abs_end(base, len, ps, k_hi - 1) == base + len
            &&& forall|k: int|
                k_lo <= k < k_hi - 1 ==> #[trigger] overlap_abs_end(base, len, ps, k)
                    == overlap_abs_start(base, ps, k + 1)
            &&& forall|k: int|
                k_lo <= k < k_hi ==> #[trigger] overlap_abs_start(base, ps, k)
                    < overlap_abs_end(base, len, ps, k)
        }),
{
    let k_lo = base / ps;
    let k_hi = (base + len - 1) / ps + 1;
    lemma_fundamental_div_mod(base, ps);
    lemma_mod_bound(base, ps);
    lemma_fundamental_div_mod(base + len - 1, ps);
    lemma_mod_bound(base + len - 1, ps);
    assert(ps * k_lo == k_lo * ps) by (nonlinear_arith);
    assert(ps * (k_hi - 1) == (k_hi - 1) * ps) by (nonlinear_arith);
    // k_lo * ps <= base < k_lo * ps + ps, and similarly for base + len - 1.
    assert(k_lo >= 0) by (nonlinear_arith)
        requires
            ps >= 1,
            base >= 0,
            k_lo * ps <= base < k_lo * ps + ps,
    ;
    lemma_div_is_ordered(base, base + len - 1, ps);
    assert(k_hi <= pc) by (nonlinear_arith)
        requires
            ps >= 1,
            (k_hi - 1) * ps <= base + len - 1,
            base + len <= pc * ps,
    ;
    assert forall|k: int| page_overlaps(base, len, ps, k) <==> k_lo <= k < k_hi by {
        if k_lo <= k < k_hi {
            lemma_mul_inequality(k, k_hi - 1, ps);
            lemma_mul_inequality(k_lo, k, ps);
            assert(k * ps + ps > base);
        }
        if page_overlaps(base, len, ps, k) {
            assert((ps * k) / ps == k) by {
                lemma_div_multiples_vanish(k, ps);
            };
            assert(ps * k == k * ps) by (nonlinear_arith);
            lemma_div_is_ordered(k * ps, base + len - 1, ps);
            assert(k <= k_hi - 1);
            if k < k_lo {
                lemma_mul_inequality(k + 1, k_lo, ps);
                assert((k + 1) * ps == k * ps + ps) by (nonlinear_arith);
                assert(false);
            }
        }
    }
    assert(overlap_abs_start(base, ps, k_lo) == base);
    assert(overlap_abs_end(base, len, ps, k_hi - 1) == base + len);
    assert forall|k: int|
        k_lo <= k < k_hi - 1 implies #[trigger] overlap_abs_end(base, len, ps, k)
        == overlap_abs_start(base, ps, k + 1) by {
        lemma_mul_inequality(k + 1, k_hi - 1, ps);
        lemma_mul_inequality(k_lo + 1, k + 1, ps);
        assert((k + 1) * ps == k * ps + ps) by (nonlinear_arith);
        assert((k_lo + 1) * ps == k_lo * ps + ps) by (nonlinear_arith);
    }
    assert forall|k: int|
        k_lo <= k < k_hi implies #[trigger] overlap_abs_start(base, ps, k) < overlap_abs_end(
        base,
        len,
        ps,
        k,
    ) by {
        assert(page_overlaps(base, len, ps, k));
    }
}

/// A grid of `page_count` contiguous pages of `page_size` bytes each,
/// starting at address 0.
pub struct PageGrid {
    /// Size of every page of the grid.
    pub page_size: usize,
    /// Number of pages in the grid.
    pub page_count: u32,
}

impl PageGrid {
    /// A grid of `page_count` pages of `page_size` bytes.
    pub fn new(page_size: usize, page_count: u32) -> (r: PageGrid)
        ensures
            r.page_size == page_size,
            r.page_count == page_count,
    {
        PageGrid { page_size, page_count }
    }
}

impl IterableByOverlaps for PageGrid {
    open spec fn spec_page_size(&self) -> usize {
        self.page_size
    }

    open spec fn spec_page_count(&self) -> u32 {
        self.page_count
    }

    fn overlaps(self, mem_len: usize, base_address: u32) -> (it: OverlapIterator) {
        OverlapIterator {
            mem_len,
            base_address,
            page_size: self.page_size,
            page_count: self.page_count,
            next_index: 0,
        }
    }
}

impl OverlapIterator {
    /// The iterator's address arithmetic stays within `u32`, and the scan
    /// position has not run past the grid.
    pub open spec fn wf(&self) -> bool {
        &&& self.base_address + self.mem_len <= u32::MAX
        &&& self.page_count * self.page_size <= u32::MAX
        &&& self.next_index <= self.page_count
    }

    /// The next overlap between the buffer and a page, in ascending page
    /// order, skipping pages the buffer does not touch.
    pub fn next(&mut self) -> (r: Option<Overlap>)
        requires
            old(self).wf(),
        ensures
            final(self).wf(),
            final(self).mem_len == old(self).mem_len,
            final(self).base_address == old(self).base_address,
            final(self).page_size == old(self).page_size,
            final(self).page_count == old(self).page_count,
            old(self).next_index <= final(self).next_index,
            r is None ==> final(self).next_index == old(self).page_count && forall|j: int|
                old(self).next_index <= j < old(self).page_count ==> !page_overlaps(
                    old(self).base_address as int,
                    old(self).mem_len as int,
                    old(self).page_size as int,
                    j,
                ),
            r is Some ==> ({
                let k = final(self).next_index - 1;
                &&& old(self).next_index <= k < old(self).page_count
                &&& page_overlaps(
                    old(self).base_address as int,
                    old(self).mem_len as int,
                    old(self).page_size as int,
                    k,
                )
                &&& forall|j: int|
                    old(self).next_index <= j < k ==> !page_overlaps(
                        old(self).base_address as int,
                        old(self).mem_len as int,
                        old(self).page_size as int,
                        j,
                    )
                &&& overlap_for(
                    r->Some_0,
                    old(self).base_address as int,
                    old(self).mem_len as int,
                    old(self).page_size as int,
                    k,
                )
                &&& r->Some_0.mem_start < r->Some_0.mem_end <= old(self).mem_len
                &&& r->Some_0.page.inv()
            }),
    {
        let ghost base = self.base_address as int;
        let ghost len = self.mem_len as int;
        let ghost ps = self.page_size as int;
        let mem_start = self.base_address;
        if self.mem_len == 0 {
            self.next_index = self.page_count;
            return None;
        }
        let mem_end = mem_start + (self.mem_len as u32);
        while self.next_index < self.page_count
            invariant
                self.wf(),
                self.mem_len == old(self).mem_len,
                self.base_address == old(self).base_address,
                self.page_size == old(self).page_size,
                self.page_count == old(self).page_count,
                old(self).next_index <= self.next_index,
                base == self.base_address as int,
                len == self.mem_len as int,
                ps == self.page_size as int,
                mem_start == self.base_address,
                self.mem_len >= 1,
                mem_end == base + len,
                forall|j: int|
                    old(self).next_index <= j < self.next_index ==> !page_overlaps(base, len, ps, j),
            decreases self.page_count - self.next_index,
        {
            let idx = self.next_index;
            proof {
                lemma_mul_inequality(idx as int + 1, self.page_count as int, ps);
            }
            let page = Page::new(idx, self.page_size);
            self.next_index = idx + 1;
            if mem_start < page.end() && mem_end > page.start {
                let addr_start = if mem_start > page.start {
                    mem_start
                } else {
                    page.start
                };
                let page_end = page.end();
                let addr_end = if mem_end < page_end {
                    mem_end
                } else {
                    page_end
                };
                proof {
                    let k = idx as int;
                    assert(ps == 0 ==> k * ps == 0) by (nonlinear_arith);
                    assert(ps >= 1);
                    assert(page_overlaps(base, len, ps, k));
                    assert(addr_start as int == overlap_abs_start(base, ps, k));
                    assert(addr_end as int == overlap_abs_end(base, len, ps, k));
                    assert(addr_start < addr_end);
                }
                return Some(
                    Overlap {
                        mem_start: (addr_start - self.base_address) as usize,
                        mem_end: (addr_end - self.base_address) as usize,
                        page,
                        addr: addr_start,
                    },
                );
            }
        }
        None
    }
}

} // verus!
