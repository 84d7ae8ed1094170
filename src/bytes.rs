//! Little-endian integer fields and signature search in byte buffers.

use vstd::prelude::*;

verus! {

/// Little-endian value of the two bytes of `b` starting at `i`.
pub open spec fn le16(b: Seq<u8>, i: int) -> int {
    b[i] + 0x100 * b[i + 1]
}

/// Little-endian value of the four bytes of `b` starting at `i`.
pub open spec fn le32(b: Seq<u8>, i: int) -> int {
    le16(b, i) + 0x1_0000 * le16(b, i + 2)
}

/// Little-endian value of the eight bytes of `b` starting at `i`.
pub open spec fn le64(b: Seq<u8>, i: int) -> int {
    le32(b, i) + 0x1_0000_0000 * le32(b, i + 4)
}

/// Whether the four bytes of `b` at `i` equal `sig`.
pub open spec fn has_tag_at(b: Seq<u8>, i: int, sig: Seq<u8>) -> bool {
    0 <= i && i + sig.len() <= b.len() && b.subrange(i, i + sig.len()) == sig
}

pub fn read_u16_le(b: &[u8], i: usize) -> (r: u16)
    requires
        i + 2 <= b.len(),
    ensures
        r == le16(b@, i as int),
{
    b[i] as u16 + 0x100 * (b[i + 1] as u16)
}

pub fn read_u32_le(b: &[u8], i: usize) -> (r: u32)
    requires
        i + 4 <= b.len(),
    ensures
        r == le32(b@, i as int),
{
    read_u16_le(b, i) as u32 + 0x1_0000 * (read_u16_le(b, i + 2) as u32)
}

pub fn read_u64_le(b: &[u8], i: usize) -> (r: u64)
    requires
        i + 8 <= b.len(),
    ensures
        r == le64(b@, i as int),
{
    read_u32_le(b, i) as u64 + 0x1_0000_0000 * (read_u32_le(b, i + 4) as u64)
}

/// First position at which `pattern` occurs as a contiguous window of `data`.
pub fn find_pattern(data: &[u8], pattern: &[u8]) -> (r: Option<usize>)
    requires
        pattern@.len() > 0,
    ensures
        match r {
            Some(i) => has_tag_at(data@, i as int, pattern@) && forall|j: int|
                0 <= j < i ==> !has_tag_at(data@, j, pattern@),
            None => forall|j: int| 0 <= j ==> !has_tag_at(data@, j, pattern@),
        },
{
    let n = data.len();
    let m = pattern.len();
    if m > n {
        return None;
    }
    let mut i: usize = 0;
    while i <= n - m
        invariant
            m == pattern@.len(),
            n == data@.len(),
            m <= n,
            i <= n - m + 1,
            forall|j: int| 0 <= j < i ==> !has_tag_at(data@, j, pattern@),
        decreases n - i,
    {
        let mut k: usize = 0;
        let mut same = true;
        while k < m
            invariant
                m == pattern@.len(),
                n == data@.len(),
                i + m <= n,
                k <= m,
                same == (forall|t: int| 0 <= t < k ==> data@[i + t] == pattern@[t]),
            decreases m - k,
        {
            if data[i + k] != pattern[k] {
                same = false;
            }
            k = k + 1;
        }
        if same {
            assert(data@.subrange(i as int, i + m) =~= pattern@);
            return Some(i);
        }
        assert(!has_tag_at(data@, i as int, pattern@)) by {
            if has_tag_at(data@, i as int, pattern@) {
                assert forall|t: int| 0 <= t < m implies data@[i + t] == pattern@[t] by {
                    assert(data@.subrange(i as int, i + m)[t] == data@[i + t]);
                }
            }
        }
        i = i + 1;
    }
    None
}

} // verus!
