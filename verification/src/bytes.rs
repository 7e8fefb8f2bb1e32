//! Byte-sequence primitives: zero runs, in-place splices, little-endian
//! integer codecs, and single-bit access within a byte.

use vstd::prelude::*;

verus! {

/// A run of `n` zero bytes.
pub open spec fn zeros(n: int) -> Seq<u8> {
    Seq::new(n as nat, |i: int| 0u8)
}

/// `d` with `s` written over the bytes starting at offset `off`.
pub open spec fn splice(d: Seq<u8>, off: int, s: Seq<u8>) -> Seq<u8> {
    Seq::new(d.len(), |i: int| if off <= i < off + s.len() { s[i - off] } else { d[i] })
}

/// The value of two little-endian bytes.
pub open spec fn le16(s: Seq<u8>) -> int {
    s[0] as int + 0x100 * (s[1] as int)
}

/// The value of eight little-endian bytes.
pub open spec fn le64(s: Seq<u8>) -> int {
    s[0] as int + 0x100 * (s[1] as int) + 0x1_0000 * (s[2] as int) + 0x100_0000 * (s[3] as int)
        + 0x1_0000_0000 * (s[4] as int) + 0x100_0000_0000 * (s[5] as int)
        + 0x1_0000_0000_0000 * (s[6] as int) + 0x100_0000_0000_0000 * (s[7] as int)
}

/// Bit `k` of byte `b`, bit 0 being the least significant.
pub open spec fn nth_bit(b: u8, k: u8) -> bool {
    ((b >> k) & 1) == 1
}

/// Decode a little-endian `u16` at offset `off` of `b`.
pub fn u16_from_le(b: &Vec<u8>, off: usize) -> (r: u16)
    requires
        off + 2 <= b@.len(),
    ensures
        r as int == le16(b@.subrange(off as int, off as int + 2)),
{
    let _l: usize = b.len();
    let r: u16 = b[off] as u16 + (b[off + 1] as u16) * 0x100;
    proof {
        let s = b@.subrange(off as int, off as int + 2);
        assert(s[0] == b@[off as int]);
        assert(s[1] == b@[off as int + 1]);
    }
    r
}

/// Decode a little-endian `u64` at offset `off` of `b`.
pub fn u64_from_le(b: &Vec<u8>, off: usize) -> (r: u64)
    requires
        off + 8 <= b@.len(),
    ensures
        r as int == le64(b@.subrange(off as int, off as int + 8)),
{
    let _l: usize = b.len();
    let r: u64 = b[off] as u64 + (b[off + 1] as u64) * 0x100 + (b[off + 2] as u64) * 0x1_0000
        + (b[off + 3] as u64) * 0x100_0000 + (b[off + 4] as u64) * 0x1_0000_0000
        + (b[off + 5] as u64) * 0x100_0000_0000 + (b[off + 6] as u64) * 0x1_0000_0000_0000
        + (b[off + 7] as u64) * 0x100_0000_0000_0000;
    proof {
        let s = b@.subrange(off as int, off as int + 8);
        assert forall|i: int| 0 <= i < 8 implies s[i] == b@[off + i] by {}
    }
    r
}

/// Encode `x` as two little-endian bytes.
pub fn u16_to_le(x: u16) -> (r: Vec<u8>)
    ensures
        r@.len() == 2,
        le16(r@) == x as int,
{
    let b0: u8 = (x & 0xff) as u8;
    let b1: u8 = ((x >> 8) & 0xff) as u8;
    let mut r: Vec<u8> = Vec::new();
    r.push(b0);
    r.push(b1);
    proof {
        assert(b0 as int + 0x100 * (b1 as int) == x as int) by (bit_vector)
            requires
                b0 == (x & 0xff) as u8,
                b1 == ((x >> 8) & 0xff) as u8,
        ;
    }
    r
}

/// Encode `x` as eight little-endian bytes.
pub fn u64_to_le(x: u64) -> (r: Vec<u8>)
    ensures
        r@.len() == 8,
        le64(r@) == x as int,
{
    let b0: u8 = (x & 0xff) as u8;
    let b1: u8 = ((x >> 8) & 0xff) as u8;
    let b2: u8 = ((x >> 16) & 0xff) as u8;
    let b3: u8 = ((x >> 24) & 0xff) as u8;
    let b4: u8 = ((x >> 32) & 0xff) as u8;
    let b5: u8 = ((x >> 40) & 0xff) as u8;
    let b6: u8 = ((x >> 48) & 0xff) as u8;
    let b7: u8 = ((x >> 56) & 0xff) as u8;
    let mut r: Vec<u8> = Vec::new();
    r.push(b0);
    r.push(b1);
    r.push(b2);
    r.push(b3);
    r.push(b4);
    r.push(b5);
    r.push(b6);
    r.push(b7);
    proof {
        assert(b0 as int + 0x100 * (b1 as int) + 0x1_0000 * (b2 as int) + 0x100_0000 * (
        b3 as int) + 0x1_0000_0000 * (b4 as int) + 0x100_0000_0000 * (b5 as int)
            + 0x1_0000_0000_0000 * (b6 as int) + 0x100_0000_0000_0000 * (b7 as int) == x as int)
            by (bit_vector)
            requires
                b0 == (x & 0xff) as u8,
                b1 == ((x >> 8) & 0xff) as u8,
                b2 == ((x >> 16) & 0xff) as u8,
                b3 == ((x >> 24) & 0xff) as u8,
                b4 == ((x >> 32) & 0xff) as u8,
                b5 == ((x >> 40) & 0xff) as u8,
                b6 == ((x >> 48) & 0xff) as u8,
                b7 == ((x >> 56) & 0xff) as u8,
        ;
    }
    r
}

/// Write all of `src` into `dst` starting at offset `off`.
pub fn write_bytes(dst: &mut Vec<u8>, off: usize, src: &Vec<u8>)
    requires
        off + src@.len() <= old(dst)@.len(),
    ensures
        final(dst)@ == splice(old(dst)@, off as int, src@),
{
    let n: usize = src.len();
    let dlen: usize = dst.len();
    let mut k: usize = 0;
    while k < n
        invariant
            n == src@.len(),
            dlen == dst@.len(),
            off + n <= dlen,
            dst@.len() == old(dst)@.len(),
            k <= n,
            forall|i: int|
                0 <= i < dst@.len() ==> dst@[i] == if off <= i < off + k {
                    src@[i - off]
                } else {
                    old(dst)@[i]
                },
        decreases n - k,
    {
        dst.set(off + k, src[k]);
        k = k + 1;
    }
    proof {
        assert(dst@ =~= splice(old(dst)@, off as int, src@));
    }
}

/// Copy `n` bytes of `src` starting at offset `off` into a fresh vector.
pub fn read_bytes(src: &Vec<u8>, off: usize, n: usize) -> (r: Vec<u8>)
    requires
        off + n <= src@.len(),
    ensures
        r@ == src@.subrange(off as int, off as int + n as int),
{
    let slen: usize = src.len();
    let mut r: Vec<u8> = Vec::new();
    let mut k: usize = 0;
    while k < n
        invariant
            slen == src@.len(),
            off + n <= slen,
            k <= n,
            r@.len() == k,
            forall|i: int| 0 <= i < k ==> r@[i] == src@[off + i],
        decreases n - k,
    {
        r.push(src[off + k]);
        k = k + 1;
    }
    proof {
        assert(r@ =~= src@.subrange(off as int, off as int + n as int));
    }
    r
}

/// A vector of `n` zero bytes.
pub fn zero_vec(n: usize) -> (r: Vec<u8>)
    ensures
        r@ == zeros(n as int),
{
    let mut r: Vec<u8> = Vec::new();
    let mut k: usize = 0;
    while k < n
        invariant
            k <= n,
            r@.len() == k,
            forall|i: int| 0 <= i < k ==> r@[i] == 0u8,
        decreases n - k,
    {
        r.push(0);
        k = k + 1;
    }
    proof {
        assert(r@ =~= zeros(n as int));
    }
    r
}


/// Testing a bit with a mask agrees with `nth_bit`.
pub proof fn lemma_bit_test(b: u8, k: u8)
    by (bit_vector)
    requires
        k < 8,
    ensures
        ((b & (1u8 << k)) != 0) == nth_bit(b, k),
{
}

/// Setting bit `k` makes it read as set and leaves every other bit alone.
pub proof fn lemma_bit_set(b: u8, k: u8)
    by (bit_vector)
    requires
        k < 8,
    ensures
        nth_bit(b | (1u8 << k), k),
        forall|k2: u8| k2 < 8 && k2 != k ==> #[trigger] nth_bit(b | (1u8 << k), k2) == nth_bit(b, k2),
{
}

/// Clearing bit `k` makes it read as clear and leaves every other bit alone.
pub proof fn lemma_bit_clear(b: u8, k: u8)
    by (bit_vector)
    requires
        k < 8,
    ensures
        !nth_bit(b & !(1u8 << k), k),
        forall|k2: u8| k2 < 8 && k2 != k ==> #[trigger] nth_bit(b & !(1u8 << k), k2) == nth_bit(
            b,
            k2,
        ),
{
}

/// Every bit of a full byte is set.
pub proof fn lemma_byte_all_ones(b: u8)
    by (bit_vector)
    requires
        b == 0xff,
    ensures
        forall|k: u8| k < 8 ==> #[trigger] nth_bit(b, k),
{
}

/// No bit of a zero byte is set.
pub proof fn lemma_byte_zero(k: u8)
    by (bit_vector)
    ensures
        !nth_bit(0u8, k),
{
}

/// A byte whose eight bits are all set is the full byte.
pub proof fn lemma_all_bits_full(b: u8)
    by (bit_vector)
    requires
        b & (1u8 << 0) != 0,
        b & (1u8 << 1) != 0,
        b & (1u8 << 2) != 0,
        b & (1u8 << 3) != 0,
        b & (1u8 << 4) != 0,
        b & (1u8 << 5) != 0,
        b & (1u8 << 6) != 0,
        b & (1u8 << 7) != 0,
    ensures
        b == 0xff,
{
}

} // verus!
