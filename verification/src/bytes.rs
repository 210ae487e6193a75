//! Big-endian integer fields of the graph file, decoded byte by byte.

use vstd::prelude::*;

verus! {

/// Value of the four big-endian bytes of `d` starting at index `i`.
pub open spec fn be_u32_at(d: Seq<u8>, i: int) -> u32 {
    (d[i] * 0x100_0000 + d[i + 1] * 0x1_0000 + d[i + 2] * 0x100 + d[i + 3]) as u32
}

/// Value of the eight big-endian bytes of `d` starting at index `i`.
pub open spec fn be_u64_at(d: Seq<u8>, i: int) -> u64 {
    (d[i] * 0x100_0000_0000_0000
        + d[i + 1] * 0x1_0000_0000_0000
        + d[i + 2] * 0x100_0000_0000
        + d[i + 3] * 0x1_0000_0000
        + d[i + 4] * 0x100_0000
        + d[i + 5] * 0x1_0000
        + d[i + 6] * 0x100
        + d[i + 7]) as u64
}

/// Reads the four-byte big-endian integer of `d` starting at `i`.
pub fn read_u32_be(d: &Vec<u8>, i: usize) -> (r: u32)
    requires
        i + 4 <= d@.len(),
    ensures
        r == be_u32_at(d@, i as int),
{
    let n: usize = d.len();
    (d[i] as u32) * 0x100_0000 + (d[i + 1] as u32) * 0x1_0000 + (d[i + 2] as u32) * 0x100 + (d[i
        + 3] as u32)
}

/// Reads the eight-byte big-endian integer of `d` starting at `i`.
pub fn read_u64_be(d: &Vec<u8>, i: usize) -> (r: u64)
    requires
        i + 8 <= d@.len(),
    ensures
        r == be_u64_at(d@, i as int),
{
    let n: usize = d.len();
    (d[i] as u64) * 0x100_0000_0000_0000 + (d[i + 1] as u64) * 0x1_0000_0000_0000 + (d[i
        + 2] as u64) * 0x100_0000_0000 + (d[i + 3] as u64) * 0x1_0000_0000 + (d[i
        + 4] as u64) * 0x100_0000 + (d[i + 5] as u64) * 0x1_0000 + (d[i + 6] as u64) * 0x100 + (d[i
        + 7] as u64)
}

/// Copies `len` bytes of `d` starting at `start` into a fresh vector.
pub fn copy_range(d: &Vec<u8>, start: usize, len: usize) -> (r: Vec<u8>)
    requires
        start + len <= d@.len(),
    ensures
        r@ == d@.subrange(start as int, start as int + len as int),
{
    let mut r: Vec<u8> = Vec::new();
    let mut i: usize = 0;
    while i < len
        invariant
            start + len <= d@.len(),
            0 <= i <= len,
            r@.len() == i,
            forall|k: int| 0 <= k < i ==> r@[k] == d@[start + k],
        decreases len - i,
    {
        let dlen: usize = d.len();
        r.push(d[start + i]);
        i = i + 1;
    }
    proof {
        assert(r@ =~= d@.subrange(start as int, start as int + len as int));
    }
    r
}

} // verus!
