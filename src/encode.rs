//! Canonical little-endian encoding of integers and length prefixes.
use vstd::arithmetic::div_mod::*;
use vstd::prelude::*;

verus! {

/// Little-endian bytes of a 16-bit integer.
pub open spec fn u16_le(x: u16) -> Seq<u8> {
    seq![(x % 256) as u8, (x / 256) as u8]
}

/// Little-endian bytes of a 32-bit integer.
pub open spec fn u32_le(x: u32) -> Seq<u8> {
    seq![
        (x % 256) as u8,
        ((x / 256) % 256) as u8,
        ((x / 65536) % 256) as u8,
        (x / 16777216) as u8,
    ]
}

/// Little-endian bytes of a 64-bit integer: the low half, then the high half.
pub open spec fn u64_le(x: u64) -> Seq<u8> {
    u32_le((x % 0x1_0000_0000) as u32) + u32_le((x / 0x1_0000_0000) as u32)
}

/// Variable-length count prefix.
pub open spec fn varint_bytes(n: u64) -> Seq<u8> {
    if n < 0xfd {
        seq![n as u8]
    } else if n <= 0xffff {
        seq![0xfdu8] + u16_le(n as u16)
    } else if n <= 0xffff_ffff {
        seq![0xfeu8] + u32_le(n as u32)
    } else {
        seq![0xffu8] + u64_le(n)
    }
}

/// A byte string with its length prefix.
pub open spec fn var_bytes(s: Seq<u8>) -> Seq<u8> {
    varint_bytes(s.len() as u64) + s
}

pub fn push_u16(buf: &mut Vec<u8>, x: u16)
    ensures
        final(buf)@ == old(buf)@ + u16_le(x),
{
    buf.push((x % 256) as u8);
    buf.push((x / 256) as u8);
    assert(buf@ =~= old(buf)@ + u16_le(x));
}

pub fn push_u32(buf: &mut Vec<u8>, x: u32)
    ensures
        final(buf)@ == old(buf)@ + u32_le(x),
{
    buf.push((x % 256) as u8);
    buf.push(((x / 256) % 256) as u8);
    buf.push(((x / 65536) % 256) as u8);
    buf.push((x / 16777216) as u8);
    assert(buf@ =~= old(buf)@ + u32_le(x));
}

pub fn push_u64(buf: &mut Vec<u8>, x: u64)
    ensures
        final(buf)@ == old(buf)@ + u64_le(x),
{
    push_u32(buf, (x % 0x1_0000_0000) as u32);
    push_u32(buf, (x / 0x1_0000_0000) as u32);
    assert(buf@ =~= old(buf)@ + u64_le(x));
}

pub fn push_varint(buf: &mut Vec<u8>, n: u64)
    ensures
        final(buf)@ == old(buf)@ + varint_bytes(n),
{
    if n < 0xfd {
        buf.push(n as u8);
    } else if n <= 0xffff {
        buf.push(0xfd);
        push_u16(buf, n as u16);
    } else if n <= 0xffff_ffff {
        buf.push(0xfe);
        push_u32(buf, n as u32);
    } else {
        buf.push(0xff);
        push_u64(buf, n);
    }
    assert(buf@ =~= old(buf)@ + varint_bytes(n));
}

/// Appends `s` with its length prefix.
pub fn push_var_bytes(buf: &mut Vec<u8>, s: &Vec<u8>)
    requires
        s.len() <= u64::MAX,
    ensures
        final(buf)@ == old(buf)@ + var_bytes(s@),
{
    push_varint(buf, s.len() as u64);
    let ghost mid = buf@;
    let mut i: usize = 0;
    while i < s.len()
        invariant
            i <= s.len(),
            buf@ == mid + s@.subrange(0, i as int),
        decreases s.len() - i,
    {
        buf.push(s[i]);
        assert(s@.subrange(0, i + 1) =~= s@.subrange(0, i as int).push(s@[i as int]));
        i = i + 1;
    }
    assert(s@.subrange(0, s.len() as int) =~= s@);
    assert(buf@ =~= old(buf)@ + var_bytes(s@));
}

/// The bytes of a four-digit base-256 number are its digits.
proof fn lemma_le_digits(b0: u8, b1: u8, b2: u8, b3: u8)
    ensures
        ({
            let r = b0 as nat + 256 * b1 as nat + 65536 * b2 as nat + 16777216 * b3 as nat;
            &&& r % 256 == b0
            &&& (r / 256) % 256 == b1
            &&& (r / 65536) % 256 == b2
            &&& r / 16777216 == b3
        }),
{
    let r = b0 as nat + 256 * b1 as nat + 65536 * b2 as nat + 16777216 * b3 as nat;
    let r1 = b1 as nat + 256 * b2 as nat + 65536 * b3 as nat;
    let r2 = b2 as nat + 256 * b3 as nat;
    lemma_fundamental_div_mod_converse(r as int, 256, r1 as int, b0 as int);
    lemma_fundamental_div_mod_converse(r1 as int, 256, r2 as int, b1 as int);
    lemma_fundamental_div_mod_converse(r2 as int, 256, b3 as int, b2 as int);
    lemma_div_denominator(r as int, 256, 256);
    lemma_div_denominator(r as int, 65536, 256);
}

/// Reads a little-endian 32-bit integer at `off`.
pub fn read_u32(bytes: &Vec<u8>, off: usize) -> (r: u32)
    requires
        off + 4 <= bytes.len(),
    ensures
        u32_le(r) == bytes@.subrange(off as int, off + 4),
{
    let (b0, b1, b2, b3) = (bytes[off], bytes[off + 1], bytes[off + 2], bytes[off + 3]);
    let r = b0 as u32 + 256 * b1 as u32 + 65536 * b2 as u32 + 16777216 * b3 as u32;
    proof {
        lemma_le_digits(b0, b1, b2, b3);
    }
    assert(u32_le(r) =~= bytes@.subrange(off as int, off + 4));
    r
}

/// Reads a little-endian 64-bit integer at `off`.
pub fn read_u64(bytes: &Vec<u8>, off: usize) -> (r: u64)
    requires
        off + 8 <= bytes.len(),
    ensures
        u64_le(r) == bytes@.subrange(off as int, off + 8),
{
    let lo = read_u32(bytes, off);
    let hi = read_u32(bytes, off + 4);
    let r = lo as u64 + 0x1_0000_0000 * hi as u64;
    assert(u64_le(r) =~= bytes@.subrange(off as int, off + 8)) by {
        assert((r % 0x1_0000_0000) as u32 == lo);
        assert((r / 0x1_0000_0000) as u32 == hi);
    };
    r
}

/// Equal encodings come from equal integers.
pub proof fn lemma_u32_le_injective(a: u32, b: u32)
    requires
        u32_le(a) == u32_le(b),
    ensures
        a == b,
{
    assert(u32_le(a)[0] == u32_le(b)[0]);
    assert(u32_le(a)[1] == u32_le(b)[1]);
    assert(u32_le(a)[2] == u32_le(b)[2]);
    assert(u32_le(a)[3] == u32_le(b)[3]);
}

/// Equal encodings come from equal integers.
pub proof fn lemma_u64_le_injective(a: u64, b: u64)
    requires
        u64_le(a) == u64_le(b),
    ensures
        a == b,
{
    let la = (a % 0x1_0000_0000) as u32;
    let lb = (b % 0x1_0000_0000) as u32;
    let ha = (a / 0x1_0000_0000) as u32;
    let hb = (b / 0x1_0000_0000) as u32;
    assert(u32_le(la) =~= u64_le(a).subrange(0, 4));
    assert(u32_le(lb) =~= u64_le(b).subrange(0, 4));
    assert(u32_le(ha) =~= u64_le(a).subrange(4, 8));
    assert(u32_le(hb) =~= u64_le(b).subrange(4, 8));
    lemma_u32_le_injective(la, lb);
    lemma_u32_le_injective(ha, hb);
}

} // verus!
