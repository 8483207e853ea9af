//! Byte-sequence model of flash contents, and verified buffer helpers.
//!
//! Flash device contents are modelled as a `Seq<u8>`. The three spec
//! functions below describe what the three flash primitives do to that
//! sequence: an ordinary overwrite, an erase (all bits set to 1, i.e.
//! every byte becomes `0xff`), and a NOR-style write, whose result is
//! the bitwise AND of the old and the new data (bits can only move
//! from 1 to 0).

use vstd::prelude::*;

verus! {

/// The contents `c` with the range starting at `offset` replaced by `data`.
pub open spec fn spec_overwrite(c: Seq<u8>, offset: int, data: Seq<u8>) -> Seq<u8> {
    Seq::new(c.len(), |i: int| if offset <= i < offset + data.len() { data[i - offset] } else { c[i] })
}

/// The contents `c` with every byte in `[from, to)` erased to all-ones.
pub open spec fn spec_erase_range(c: Seq<u8>, from: int, to: int) -> Seq<u8> {
    Seq::new(c.len(), |i: int| if from <= i < to { 0xffu8 } else { c[i] })
}

/// The contents `c` after a NOR write of `data` at `offset`: within the
/// written range each byte becomes the bitwise AND of the new and the old
/// byte; everything else is unchanged.
pub open spec fn spec_and_write(c: Seq<u8>, offset: int, data: Seq<u8>) -> Seq<u8> {
    Seq::new(c.len(), |i: int| if offset <= i < offset + data.len() { data[i - offset] & c[i] } else { c[i] })
}

/// `data` is a bitwise subset of `stored`: every bit that is 1 in `data`
/// is already 1 in `stored`, byte for byte. Such data can be written over
/// `stored` by a NOR write without an intervening erase.
pub open spec fn spec_is_bit_subset(data: Seq<u8>, stored: Seq<u8>) -> bool {
    &&& data.len() <= stored.len()
    &&& forall|i: int| 0 <= i < data.len() ==> (data[i] & stored[i]) == data[i]
}

/// Round-trip: reading back the range that a write replaced yields exactly
/// the data that was written. Together with the `write` and `read` contracts
/// of the two read-modify-write storage engines (whose `write` establishes
/// `spec_overwrite` and whose `read` returns a `subrange` of the contents),
/// this says that for every valid `(offset, data)` a successful `write`
/// followed by a successful `read` of the same range returns `data`.
pub proof fn lemma_overwrite_read_roundtrip(c: Seq<u8>, offset: int, data: Seq<u8>)
    requires
        0 <= offset,
        offset + data.len() <= c.len(),
    ensures
        spec_overwrite(c, offset, data).subrange(offset, offset + data.len()) == data,
{
    let r = spec_overwrite(c, offset, data).subrange(offset, offset + data.len());
    assert forall|i: int| 0 <= i < data.len() implies r[i] == data[i] by {}
    assert(r =~= data);
}

/// ANDing a byte onto an erased (all-ones) byte stores it exactly.
pub proof fn lemma_u8_and_ones(b: u8)
    ensures
        b & 0xff == b,
        0xff & b == b,
{
    assert(b & 0xff == b && 0xff & b == b) by (bit_vector);
}

/// A NOR write over a freshly erased range behaves like a plain overwrite:
/// erasing `[s, s + m.len())` and then AND-writing `m` there stores `m`.
pub proof fn lemma_erase_then_write(c: Seq<u8>, s: int, m: Seq<u8>)
    requires
        0 <= s,
        s + m.len() <= c.len(),
    ensures
        spec_and_write(spec_erase_range(c, s, s + m.len()), s, m) == spec_overwrite(c, s, m),
{
    let lhs = spec_and_write(spec_erase_range(c, s, s + m.len()), s, m);
    assert forall|i: int| 0 <= i < c.len() implies lhs[i] == spec_overwrite(c, s, m)[i] by {
        if s <= i < s + m.len() {
            lemma_u8_and_ones(m[i - s]);
        }
    }
    assert(lhs =~= spec_overwrite(c, s, m));
}

/// Overwriting a whole page with the page's own image, itself overwritten
/// with a segment, is the same as overwriting just the segment in place.
pub proof fn lemma_overwrite_via_page_image(c: Seq<u8>, s: int, ps: int, a: int, seg: Seq<u8>)
    requires
        0 <= s,
        s + ps <= c.len(),
        s <= a,
        a + seg.len() <= s + ps,
    ensures
        spec_overwrite(c, s, spec_overwrite(c.subrange(s, s + ps), a - s, seg)) == spec_overwrite(
            c,
            a,
            seg,
        ),
{
    let lhs = spec_overwrite(c, s, spec_overwrite(c.subrange(s, s + ps), a - s, seg));
    assert forall|i: int| 0 <= i < c.len() implies lhs[i] == spec_overwrite(c, a, seg)[i] by {}
    assert(lhs =~= spec_overwrite(c, a, seg));
}

/// When the data is a bitwise subset of what a range stores, a NOR write of
/// the data padded on both sides with all-ones bytes stores the data exactly
/// and leaves everything else unchanged.
pub proof fn lemma_and_write_subset(c: Seq<u8>, w_start: int, a: int, seg: Seq<u8>, pad_len: int)
    requires
        0 <= w_start <= a,
        a + seg.len() <= w_start + pad_len,
        w_start + pad_len <= c.len(),
        spec_is_bit_subset(seg, c.subrange(a, a + seg.len())),
    ensures
        ({
            let ones = Seq::new(pad_len as nat, |i: int| 0xffu8);
            let padded = spec_overwrite(ones, a - w_start, seg);
            spec_and_write(c, w_start, padded) == spec_overwrite(c, a, seg)
        }),
{
    let ones = Seq::new(pad_len as nat, |i: int| 0xffu8);
    let padded = spec_overwrite(ones, a - w_start, seg);
    let lhs = spec_and_write(c, w_start, padded);
    assert forall|i: int| 0 <= i < c.len() implies lhs[i] == spec_overwrite(c, a, seg)[i] by {
        if a <= i < a + seg.len() {
            assert(padded[i - w_start] == seg[i - a]);
            assert(seg[i - a] & c.subrange(a, a + seg.len())[i - a] == seg[i - a]);
        } else if w_start <= i < w_start + pad_len {
            assert(padded[i - w_start] == 0xffu8);
            lemma_u8_and_ones(c[i]);
        }
    }
    assert(lhs =~= spec_overwrite(c, a, seg));
}

/// Create a vector of `len` copies of `value`.
pub fn new_filled(len: usize, value: u8) -> (v: Vec<u8>)
    ensures
        v@ == Seq::new(len as nat, |i: int| value),
{
    let mut v: Vec<u8> = Vec::new();
    let mut n: usize = 0;
    while n < len
        invariant
            n <= len,
            v@ == Seq::new(n as nat, |i: int| value),
        decreases len - n,
    {
        v.push(value);
        n = n + 1;
        assert(v@ =~= Seq::new(n as nat, |i: int| value));
    }
    v
}

/// Copy `count` bytes from `src[src_start..]` into `dst[dst_start..]`.
pub fn copy_from_slice_range(dst: &mut Vec<u8>, dst_start: usize, src: &[u8], src_start: usize, count: usize)
    requires
        dst_start + count <= old(dst)@.len(),
        src_start + count <= src@.len(),
    ensures
        final(dst)@ == spec_overwrite(old(dst)@, dst_start as int, src@.subrange(src_start as int, src_start + count)),
{
    let ghost seg = src@.subrange(src_start as int, src_start + count);
    let src_len: usize = src.len();
    let dst_len: usize = dst.len();
    let mut n: usize = 0;
    while n < count
        invariant
            n <= count,
            dst_start + count <= dst_len == dst@.len(),
            src_start + count <= src_len == src@.len(),
            seg == src@.subrange(src_start as int, src_start + count),
            dst@ == spec_overwrite(old(dst)@, dst_start as int, seg.take(n as int)),
        decreases count - n,
    {
        let b = src[src_start + n];
        dst.set(dst_start + n, b);
        n = n + 1;
        assert(dst@ =~= spec_overwrite(old(dst)@, dst_start as int, seg.take(n as int)));
    }
    assert(seg.take(count as int) =~= seg);
}

/// Test whether the `count` bytes of `data` starting at `d_start` are a
/// bitwise subset of the bytes of `stored` starting at `s_start`: such data
/// can be NOR-written over `stored` without an erase.
pub fn is_bit_subset(data: &[u8], d_start: usize, stored: &Vec<u8>, s_start: usize, count: usize) -> (r:
    bool)
    requires
        d_start + count <= data@.len(),
        s_start + count <= stored@.len(),
    ensures
        r == spec_is_bit_subset(
            data@.subrange(d_start as int, d_start + count),
            stored@.subrange(s_start as int, s_start + count),
        ),
{
    let ghost dseg = data@.subrange(d_start as int, d_start + count);
    let ghost sseg = stored@.subrange(s_start as int, s_start + count);
    let data_len: usize = data.len();
    let stored_len: usize = stored.len();
    let mut n: usize = 0;
    while n < count
        invariant
            n <= count,
            d_start + count <= data_len == data@.len(),
            s_start + count <= stored_len == stored@.len(),
            dseg == data@.subrange(d_start as int, d_start + count),
            sseg == stored@.subrange(s_start as int, s_start + count),
            forall|i: int| 0 <= i < n ==> (dseg[i] & sseg[i]) == dseg[i],
        decreases count - n,
    {
        let d = data[d_start + n];
        let s = stored[s_start + n];
        if d & s != d {
            proof {
                assert(dseg[n as int] == d && sseg[n as int] == s);
            }
            return false;
        }
        proof {
            assert(dseg[n as int] == d && sseg[n as int] == s);
        }
        n = n + 1;
    }
    true
}

/// Set every byte of `dst[start..end)` to `value`.
pub fn fill_range(dst: &mut Vec<u8>, start: usize, end: usize, value: u8)
    requires
        start <= end <= old(dst)@.len(),
    ensures
        final(dst)@ == spec_overwrite(old(dst)@, start as int, Seq::new((end - start) as nat, |i: int| value)),
{
    let ghost seg = Seq::new((end - start) as nat, |i: int| value);
    let mut n: usize = start;
    while n < end
        invariant
            start <= n <= end <= old(dst)@.len(),
            seg == Seq::new((end - start) as nat, |i: int| value),
            dst@ == spec_overwrite(old(dst)@, start as int, seg.take(n - start)),
        decreases end - n,
    {
        dst.set(n, value);
        n = n + 1;
        assert(dst@ =~= spec_overwrite(old(dst)@, start as int, seg.take(n - start)));
    }
    assert(seg.take((end - start) as int) =~= seg);
}

} // verus!
