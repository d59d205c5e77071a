//! Big-endian integer fields of the on-disk formats, and the byte-buffer
//! primitives that read and write them.
//!
//! The writers append to a `Vec<u8>` through the `bytes` crate, exactly as
//! the on-disk encoders do; the readers decode a field at a given position
//! of a byte slice.

use vstd::arithmetic::div_mod::lemma_fundamental_div_mod;
use vstd::prelude::*;

use bytes::Buf;
use bytes::BufMut;

verus! {

/// The two big-endian bytes of a 16-bit field with value `v`.
pub open spec fn be16(v: int) -> Seq<u8> {
    seq![(v / 256) as u8, (v % 256) as u8]
}

/// The value of a 16-bit big-endian field with bytes `b0`, `b1`.
pub open spec fn u16_val(b0: u8, b1: u8) -> int {
    b0 * 256 + b1
}

/// The four big-endian bytes of a 32-bit field with value `v`.
pub open spec fn be32(v: int) -> Seq<u8> {
    seq![
        (v / 0x1000000) as u8,
        ((v / 0x10000) % 256) as u8,
        ((v / 256) % 256) as u8,
        (v % 256) as u8,
    ]
}

/// The value of a 32-bit big-endian field with bytes `b0` .. `b3`.
pub open spec fn u32_val(b0: u8, b1: u8, b2: u8, b3: u8) -> int {
    b0 * 0x1000000 + b1 * 0x10000 + b2 * 256 + b3
}

/// Reading back the two bytes of a 16-bit field yields the value written.
pub proof fn lemma_be16_val(v: int)
    requires
        0 <= v < 0x10000,
    ensures
        be16(v).len() == 2,
        u16_val(be16(v)[0], be16(v)[1]) == v,
{
    lemma_fundamental_div_mod(v, 256);
}

/// Reading back the four bytes of a 32-bit field yields the value written.
pub proof fn lemma_be32_val(v: int)
    requires
        0 <= v < 0x100000000,
    ensures
        be32(v).len() == 4,
        u32_val(be32(v)[0], be32(v)[1], be32(v)[2], be32(v)[3]) == v,
{
    assert(u32_val(be32(v)[0], be32(v)[1], be32(v)[2], be32(v)[3]) == v) by (nonlinear_arith)
        requires
            0 <= v < 0x100000000,
    {
        lemma_fundamental_div_mod(v, 256);
        lemma_fundamental_div_mod(v / 256, 256);
        lemma_fundamental_div_mod(v / 0x10000, 256);
    }
}

/// Relies on `bytes::BufMut::put_u16` for `Vec<u8>`: appends the two
/// big-endian bytes of `v` (`n.to_be_bytes()`).
#[verifier::external_body]
pub(crate) fn put_u16(buf: &mut Vec<u8>, v: u16)
    ensures
        final(buf)@ == old(buf)@ + be16(v as int),
{
    buf.put_u16(v)
}

/// Relies on `bytes::BufMut::put_u32` for `Vec<u8>`: appends the four
/// big-endian bytes of `v` (`n.to_be_bytes()`).
#[verifier::external_body]
pub(crate) fn put_u32(buf: &mut Vec<u8>, v: u32)
    ensures
        final(buf)@ == old(buf)@ + be32(v as int),
{
    buf.put_u32(v)
}

/// Relies on `bytes::BufMut::put_slice` for `Vec<u8>`: appends the bytes
/// of `s` in order.
#[verifier::external_body]
pub(crate) fn put_slice(buf: &mut Vec<u8>, s: &[u8])
    ensures
        final(buf)@ == old(buf)@ + s@,
{
    buf.put_slice(s)
}

/// Relies on `bytes::Buf::get_u16` for `&[u8]`: reads a big-endian 16-bit
/// integer from the front of the given two-byte slice.
#[verifier::external_body]
pub(crate) fn read_u16(data: &[u8], pos: usize) -> (r: u16)
    requires
        pos + 2 <= data@.len(),
    ensures
        r as int == u16_val(data@[pos as int], data@[pos as int + 1]),
{
    let mut s = &data[pos..pos + 2];
    s.get_u16()
}

/// Relies on `bytes::Buf::get_u32` for `&[u8]`: reads a big-endian 32-bit
/// integer from the front of the given four-byte slice.
#[verifier::external_body]
pub(crate) fn read_u32(data: &[u8], pos: usize) -> (r: u32)
    requires
        pos + 4 <= data@.len(),
    ensures
        r as int == u32_val(
            data@[pos as int],
            data@[pos as int + 1],
            data@[pos as int + 2],
            data@[pos as int + 3],
        ),
{
    let mut s = &data[pos..pos + 4];
    s.get_u32()
}

/// Copies `data[start..end]` into a fresh vector.
pub fn copy_range(data: &[u8], start: usize, end: usize) -> (r: Vec<u8>)
    requires
        start <= end <= data@.len(),
    ensures
        r@ == data@.subrange(start as int, end as int),
{
    let mut r: Vec<u8> = Vec::new();
    let mut i: usize = start;
    while i < end
        invariant
            start <= i <= end <= data@.len(),
            r@ == data@.subrange(start as int, i as int),
        decreases end - i,
    {
        r.push(data[i]);
        proof {
            assert(r@ =~= data@.subrange(start as int, i as int + 1));
        }
        i = i + 1;
    }
    r
}

} // verus!
