//! Little-endian integer access and alignment padding on byte buffers.
use vstd::prelude::*;

verus! {

pub open spec fn le_u32(s: Seq<u8>, p: int) -> u32 {
    (s[p] as u32) | ((s[p + 1] as u32) << 8u32) | ((s[p + 2] as u32) << 16u32) | ((s[p + 3] as u32)
        << 24u32)
}

pub open spec fn le_u16(s: Seq<u8>, p: int) -> u16 {
    (s[p] as u16) | ((s[p + 1] as u16) << 8u16)
}

pub open spec fn u32_bytes(v: u32) -> Seq<u8> {
    seq![
        (v & 0xff) as u8,
        ((v >> 8u32) & 0xff) as u8,
        ((v >> 16u32) & 0xff) as u8,
        ((v >> 24u32) & 0xff) as u8,
    ]
}

pub open spec fn i32_bytes(v: i32) -> Seq<u8> {
    u32_bytes(v as u32)
}

pub open spec fn u16_bytes(v: u16) -> Seq<u8> {
    seq![(v & 0xff) as u8, ((v >> 8u16) & 0xff) as u8]
}

/// Number of bytes that bring `n` up to a multiple of `a`.
pub open spec fn pad_len(n: nat, a: nat) -> nat {
    if a == 0 || n % a == 0 {
        0
    } else {
        (a - n % a) as nat
    }
}

pub open spec fn fill(b: u8, n: nat) -> Seq<u8> {
    Seq::new(n, |i: int| b)
}

pub fn read_u32(data: &[u8], pos: usize) -> (r: u32)
    requires
        pos + 4 <= data@.len(),
    ensures
        r == le_u32(data@, pos as int),
{
    (data[pos] as u32) | ((data[pos + 1] as u32) << 8u32) | ((data[pos + 2] as u32) << 16u32) | ((
    data[pos + 3] as u32) << 24u32)
}

pub fn read_i32(data: &[u8], pos: usize) -> (r: i32)
    requires
        pos + 4 <= data@.len(),
    ensures
        r == le_u32(data@, pos as int) as i32,
{
    read_u32(data, pos) as i32
}

pub fn read_u16(data: &[u8], pos: usize) -> (r: u16)
    requires
        pos + 2 <= data@.len(),
    ensures
        r == le_u16(data@, pos as int),
{
    (data[pos] as u16) | ((data[pos + 1] as u16) << 8u16)
}

pub fn push_u32(buf: &mut Vec<u8>, v: u32)
    ensures
        final(buf)@ == old(buf)@ + u32_bytes(v),
{
    buf.push((v & 0xff) as u8);
    buf.push(((v >> 8u32) & 0xff) as u8);
    buf.push(((v >> 16u32) & 0xff) as u8);
    buf.push(((v >> 24u32) & 0xff) as u8);
    assert(final(buf)@ =~= old(buf)@ + u32_bytes(v));
}

pub fn push_i32(buf: &mut Vec<u8>, v: i32)
    ensures
        final(buf)@ == old(buf)@ + i32_bytes(v),
{
    push_u32(buf, v as u32);
}

pub fn push_u16(buf: &mut Vec<u8>, v: u16)
    ensures
        final(buf)@ == old(buf)@ + u16_bytes(v),
{
    buf.push((v & 0xff) as u8);
    buf.push(((v >> 8u16) & 0xff) as u8);
    assert(final(buf)@ =~= old(buf)@ + u16_bytes(v));
}

pub fn append_bytes(buf: &mut Vec<u8>, src: &[u8])
    ensures
        final(buf)@ == old(buf)@ + src@,
{
    let mut i: usize = 0;
    while i < src.len()
        invariant
            i <= src@.len(),
            buf@ == old(buf)@ + src@.subrange(0, i as int),
        decreases src@.len() - i,
    {
        buf.push(src[i]);
        i = i + 1;
        assert(buf@ =~= old(buf)@ + src@.subrange(0, i as int));
    }
    assert(src@.subrange(0, src@.len() as int) =~= src@);
}

/// `n` rounded up to a multiple of `exp`.
pub fn round_up(n: usize, exp: usize) -> (r: usize)
    requires
        exp > 0,
        n + exp - 1 <= usize::MAX,
    ensures
        r == ((n + exp - 1) / exp as int) * exp,
        n <= r < n + exp,
{
    let q = (n + (exp - 1)) / exp;
    assert(q * exp <= n + exp - 1 && n <= q * exp) by (nonlinear_arith)
        requires
            q == (n + exp - 1) / exp as int,
            exp > 0,
    ;
    q * exp
}

/// Pads `buf` with `pad_byte` up to a multiple of `alignment` bytes.
pub fn write_alignment(buf: &mut Vec<u8>, alignment: usize, pad_byte: u8)
    requires
        alignment > 0,
    ensures
        final(buf)@ == old(buf)@ + fill(pad_byte, pad_len(old(buf)@.len(), alignment as nat)),
{
    let remainder = buf.len() % alignment;
    if remainder != 0 {
        let padding = alignment - remainder;
        let mut k: usize = 0;
        while k < padding
            invariant
                k <= padding,
                buf@ == old(buf)@ + fill(pad_byte, k as nat),
            decreases padding - k,
        {
            buf.push(pad_byte);
            k = k + 1;
            assert(buf@ =~= old(buf)@ + fill(pad_byte, k as nat));
        }
    } else {
        assert(buf@ =~= old(buf)@ + fill(pad_byte, 0));
    }
}

} // verus!
