//! Little-endian `u32` framing and small byte-vector helpers.

use vstd::prelude::*;

verus! {

/// The four little-endian bytes of `n`.
pub open spec fn u32_le(n: u32) -> Seq<u8> {
    seq![
        (n & 0xff) as u8,
        ((n >> 8) & 0xff) as u8,
        ((n >> 16) & 0xff) as u8,
        ((n >> 24) & 0xff) as u8,
    ]
}

/// The `u32` read from four bytes in little-endian order.
pub open spec fn u32_from_le(b0: u8, b1: u8, b2: u8, b3: u8) -> u32 {
    (b0 as u32) | ((b1 as u32) << 8) | ((b2 as u32) << 16) | ((b3 as u32) << 24)
}

/// Decoding the little-endian bytes of `n` gives back `n`.
pub proof fn lemma_u32_le_round_trip(n: u32)
    ensures
        u32_from_le(u32_le(n)[0], u32_le(n)[1], u32_le(n)[2], u32_le(n)[3]) == n,
{
    assert(((n & 0xff) as u8 as u32) | ((((n >> 8) & 0xff) as u8 as u32) << 8)
        | ((((n >> 16) & 0xff) as u8 as u32) << 16) | ((((n >> 24) & 0xff) as u8 as u32) << 24)
        == n) by (bit_vector);
}

/// Reads the little-endian `u32` stored at `pos`.
pub fn read_u32_le(log: &Vec<u8>, pos: usize) -> (r: u32)
    requires
        pos + 4 <= log@.len(),
    ensures
        r == u32_from_le(log@[pos as int], log@[pos + 1], log@[pos + 2], log@[pos + 3]),
{
    let n: usize = log.len();
    assert(pos + 4 <= n);
    (log[pos] as u32) | ((log[pos + 1] as u32) << 8) | ((log[pos + 2] as u32) << 16)
        | ((log[pos + 3] as u32) << 24)
}

/// Appends the four little-endian bytes of `n` to `dst`.
pub fn push_u32_le(dst: &mut Vec<u8>, n: u32)
    requires
        old(dst)@.len() + 4 <= usize::MAX,
    ensures
        final(dst)@ == old(dst)@ + u32_le(n),
{
    dst.push((n & 0xff) as u8);
    dst.push(((n >> 8) & 0xff) as u8);
    dst.push(((n >> 16) & 0xff) as u8);
    dst.push(((n >> 24) & 0xff) as u8);
    assert(dst@ =~= old(dst)@ + u32_le(n));
}

/// Appends all bytes of `src` to `dst`.
pub fn push_bytes(dst: &mut Vec<u8>, src: &[u8])
    requires
        old(dst)@.len() + src@.len() <= usize::MAX,
    ensures
        final(dst)@ == old(dst)@ + src@,
{
    let n = src.len();
    let mut i: usize = 0;
    while i < n
        invariant
            i <= n,
            n == src@.len(),
            dst@.len() == old(dst)@.len() + i,
            dst@ == old(dst)@ + src@.subrange(0, i as int),
        decreases n - i,
    {
        let b = src[i];
        dst.push(b);
        i = i + 1;
        assert(dst@ =~= old(dst)@ + src@.subrange(0, i as int));
    }
    assert(src@.subrange(0, n as int) =~= src@);
}

/// Copies `log[start..end]` into a fresh vector.
pub fn copy_range(log: &Vec<u8>, start: usize, end: usize) -> (r: Vec<u8>)
    requires
        start <= end <= log@.len(),
    ensures
        r@ == log@.subrange(start as int, end as int),
{
    let mut r: Vec<u8> = Vec::new();
    let mut i: usize = start;
    while i < end
        invariant
            start <= i <= end <= log@.len(),
            r@ == log@.subrange(start as int, i as int),
        decreases end - i,
    {
        let b = log[i];
        r.push(b);
        i = i + 1;
        assert(r@ =~= log@.subrange(start as int, i as int));
    }
    r
}

/// Compares two byte strings for equality.
pub fn bytes_eq(a: &[u8], b: &[u8]) -> (r: bool)
    ensures
        r == (a@ == b@),
{
    if a.len() != b.len() {
        assert(a@ != b@) by {
            assert(a@.len() != b@.len());
        }
        return false;
    }
    let n = a.len();
    let mut i: usize = 0;
    while i < n
        invariant
            i <= n,
            n == a@.len() == b@.len(),
            forall|j: int| 0 <= j < i ==> a@[j] == b@[j],
        decreases n - i,
    {
        if a[i] != b[i] {
            return false;
        }
        i = i + 1;
    }
    assert(a@ =~= b@);
    true
}

} // verus!
