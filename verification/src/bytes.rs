//! Little-endian length fields and byte-string helpers shared by the record
//! and container codecs.

use vstd::arithmetic::div_mod::{lemma_fundamental_div_mod, lemma_fundamental_div_mod_converse, lemma_small_mod};
use vstd::prelude::*;

verus! {

/// The two-byte little-endian image of a type tag.
pub open spec fn u16_le(n: nat) -> Seq<u8>
    recommends
        n < 0x10000,
{
    seq![(n % 256) as u8, ((n / 256) % 256) as u8]
}

/// The tag a two-byte little-endian image stands for.
pub open spec fn le_u16(b: Seq<u8>) -> nat
    recommends
        b.len() == 2,
{
    b[0] as nat + 256 * (b[1] as nat)
}

/// The four-byte little-endian image of a length.
pub open spec fn u32_le(n: nat) -> Seq<u8>
    recommends
        n < 0x1_0000_0000,
{
    let lo = n % 0x10000;
    let hi = (n / 0x10000) % 0x10000;
    seq![
        (lo % 256) as u8,
        ((lo / 256) % 256) as u8,
        (hi % 256) as u8,
        ((hi / 256) % 256) as u8,
    ]
}

/// The length a four-byte little-endian image stands for.
pub open spec fn le_u32(b: Seq<u8>) -> nat
    recommends
        b.len() == 4,
{
    b[0] as nat + 256 * (b[1] as nat) + 0x10000 * (b[2] as nat) + 0x1000000 * (b[3] as nat)
}

pub proof fn lemma_u16_le_roundtrip(n: nat)
    requires
        n < 0x10000,
    ensures
        u16_le(n).len() == 2,
        le_u16(u16_le(n)) == n,
{
    lemma_fundamental_div_mod(n as int, 256);
    assert(n / 256 < 256) by (nonlinear_arith)
        requires
            n < 0x10000,
    ;
}

pub proof fn lemma_u32_le_roundtrip(n: nat)
    requires
        n < 0x1_0000_0000,
    ensures
        u32_le(n).len() == 4,
        le_u32(u32_le(n)) == n,
{
    let lo = n % 0x10000;
    let hi = (n / 0x10000) % 0x10000;
    lemma_fundamental_div_mod(n as int, 0x10000);
    assert(n / 0x10000 < 0x10000) by (nonlinear_arith)
        requires
            n < 0x1_0000_0000,
    ;
    lemma_fundamental_div_mod(lo as int, 256);
    lemma_fundamental_div_mod(hi as int, 256);
    assert(lo / 256 < 256) by (nonlinear_arith)
        requires
            lo < 0x10000,
    ;
    assert(hi / 256 < 256) by (nonlinear_arith)
        requires
            hi < 0x10000,
    ;
}

/// Reads the length a four-byte little-endian image stands for.
pub fn read_u32_le(b0: u8, b1: u8, b2: u8, b3: u8) -> (n: u32)
    ensures
        n as nat == le_u32(seq![b0, b1, b2, b3]),
{
    b0 as u32 + 256 * (b1 as u32) + 0x10000 * (b2 as u32) + 0x1000000 * (b3 as u32)
}

/// Reads the tag a two-byte little-endian image stands for.
pub fn read_u16_le(b0: u8, b1: u8) -> (n: u16)
    ensures
        n as nat == le_u16(seq![b0, b1]),
{
    b0 as u16 + 256 * (b1 as u16)
}

/// Appends the four-byte little-endian image of `n`.
pub fn write_u32_le(n: u32, out: &mut Vec<u8>)
    ensures
        final(out)@ == old(out)@ + u32_le(n as nat),
{
    let lo: u32 = n % 0x10000;
    let hi: u32 = n / 0x10000;
    proof {
        assert(hi < 0x10000) by (nonlinear_arith)
            requires
                hi == n as nat / 0x10000,
                n < 0x1_0000_0000u64,
        ;
        assert(lo / 256 < 256) by (nonlinear_arith)
            requires
                lo < 0x10000u32,
        ;
        assert(hi as nat % 0x10000 == hi as nat);
        assert(lo as nat / 256 % 256 == lo as nat / 256);
        assert(hi as nat / 256 % 256 == hi as nat / 256);
    }
    out.push((lo % 256) as u8);
    out.push((lo / 256) as u8);
    out.push((hi % 256) as u8);
    out.push((hi / 256) as u8);
    proof {
        assert(final(out)@ =~= old(out)@ + u32_le(n as nat));
    }
}

/// Appends the two-byte little-endian image of `n`.
pub fn write_u16_le(n: u16, out: &mut Vec<u8>)
    ensures
        final(out)@ == old(out)@ + u16_le(n as nat),
{
    proof {
        assert(n / 256 < 256) by (nonlinear_arith)
            requires
                n < 0x10000u32,
        ;
        assert(n as nat / 256 % 256 == n as nat / 256);
    }
    out.push((n % 256) as u8);
    out.push((n / 256) as u8);
    proof {
        assert(final(out)@ =~= old(out)@ + u16_le(n as nat));
    }
}

/// Whether two byte strings hold the same bytes.
pub fn bytes_equal(a: &Vec<u8>, b: &Vec<u8>) -> (r: bool)
    ensures
        r == (a@ == b@),
{
    if a.len() != b.len() {
        return false;
    }
    let mut i: usize = 0;
    while i < a.len()
        invariant
            i <= a.len(),
            a.len() == b.len(),
            forall|j: int| 0 <= j < i ==> a@[j] == b@[j],
        decreases a.len() - i,
    {
        if a[i] != b[i] {
            return false;
        }
        i += 1;
    }
    proof {
        assert(a@ =~= b@);
    }
    true
}

/// Copies `b[i..end]` into a fresh byte string.
pub fn copy_range(b: &[u8], i: usize, end: usize) -> (out: Vec<u8>)
    requires
        i <= end <= b@.len(),
    ensures
        out@ == b@.subrange(i as int, end as int),
{
    let mut out: Vec<u8> = Vec::new();
    let mut k: usize = i;
    while k < end
        invariant
            i <= k <= end,
            end <= b@.len(),
            out@ == b@.subrange(i as int, k as int),
        decreases end - k,
    {
        out.push(b[k]);
        k += 1;
        proof {
            assert(out@ =~= b@.subrange(i as int, k as int));
        }
    }
    out
}

/// Copies a byte string.
pub fn clone_bytes(s: &Vec<u8>) -> (r: Vec<u8>)
    ensures
        r@ == s@,
{
    let r = copy_range(s.as_slice(), 0, s.len());
    proof {
        assert(s@.subrange(0, s@.len() as int) =~= s@);
    }
    r
}

/// A zero-filled byte string of the given length.
pub fn zero_bytes(n: usize) -> (r: Vec<u8>)
    ensures
        r@ == Seq::new(n as nat, |i: int| 0u8),
{
    let mut r: Vec<u8> = Vec::new();
    let mut i: usize = 0;
    while i < n
        invariant
            i <= n,
            r@.len() == i,
            forall|j: int| 0 <= j < i ==> r@[j] == 0u8,
        decreases n - i,
    {
        r.push(0u8);
        i += 1;
    }
    proof {
        assert(r@ =~= Seq::new(n as nat, |i: int| 0u8));
    }
    r
}

/// Canonicity: a two-byte image stands for exactly one tag, and
/// re-encoding that tag gives the same two bytes back.
pub proof fn lemma_u16_le_canonical(b: Seq<u8>)
    requires
        b.len() == 2,
    ensures
        le_u16(b) < 0x10000,
        u16_le(le_u16(b)) == b,
{
    let n = le_u16(b);
    lemma_fundamental_div_mod_converse(n as int, 256, b[1] as int, b[0] as int);
    lemma_small_mod(b[1] as nat, 256);
    assert(u16_le(n) =~= b);
}

/// Canonicity: a four-byte image stands for exactly one length, and
/// re-encoding that length gives the same four bytes back.
pub proof fn lemma_u32_le_canonical(b: Seq<u8>)
    requires
        b.len() == 4,
    ensures
        le_u32(b) < 0x1_0000_0000,
        u32_le(le_u32(b)) == b,
{
    let n = le_u32(b);
    let lo = b[0] as int + 256 * (b[1] as int);
    let hi = b[2] as int + 256 * (b[3] as int);
    assert(n as int == hi * 0x10000 + lo);
    lemma_fundamental_div_mod_converse(n as int, 0x10000, hi, lo);
    lemma_fundamental_div_mod_converse(lo, 256, b[1] as int, b[0] as int);
    lemma_fundamental_div_mod_converse(hi, 256, b[3] as int, b[2] as int);
    lemma_small_mod(hi as nat, 0x10000);
    lemma_small_mod(b[1] as nat, 256);
    lemma_small_mod(b[3] as nat, 256);
    assert(u32_le(n) =~= b);
}

} // verus!
