//! Fixed-width integer reads and writes in either byte order.
//!
//! Every multi-byte integer in a document is laid out in the byte order the
//! header selects. The spec functions here define that layout exactly; the
//! executable readers and writers are proved against them.

use vstd::prelude::*;

use crate::error::MsbtError;

verus! {

/// The byte order every multi-byte integer of a document is stored in.
#[derive(Clone, Copy, Debug, PartialEq, Eq, Structural)]
pub enum ByteOrder {
    Little,
    Big,
}

/// The code-unit width of the text section: UTF-16 stores one code unit in
/// two bytes, UTF-8 in one.
#[derive(Clone, Copy, Debug, PartialEq, Eq, Structural)]
pub enum Encoding {
    Utf16,
    Utf8,
}

/// The two bytes of `v` in byte order `bo`.
pub open spec fn u16_bytes(bo: ByteOrder, v: u16) -> Seq<u8> {
    let lo = (v % 0x100) as u8;
    let hi = (v / 0x100) as u8;
    match bo {
        ByteOrder::Little => seq![lo, hi],
        ByteOrder::Big => seq![hi, lo],
    }
}

/// The four bytes of `v` in byte order `bo`.
pub open spec fn u32_bytes(bo: ByteOrder, v: u32) -> Seq<u8> {
    let b0 = (v % 0x100) as u8;
    let b1 = ((v / 0x100) % 0x100) as u8;
    let b2 = ((v / 0x10000) % 0x100) as u8;
    let b3 = ((v / 0x1000000) % 0x100) as u8;
    match bo {
        ByteOrder::Little => seq![b0, b1, b2, b3],
        ByteOrder::Big => seq![b3, b2, b1, b0],
    }
}

/// The value whose bytes in order `bo` are `a` then `b`.
pub open spec fn u16_of(bo: ByteOrder, a: u8, b: u8) -> u16 {
    match bo {
        ByteOrder::Little => (a + b * 0x100) as u16,
        ByteOrder::Big => (b + a * 0x100) as u16,
    }
}

/// The `u16` stored at offset `i` of `s` in byte order `bo`.
pub open spec fn u16_at(bo: ByteOrder, s: Seq<u8>, i: int) -> u16 {
    u16_of(bo, s[i], s[i + 1])
}

/// The `u32` stored at offset `i` of `s` in byte order `bo`.
pub open spec fn u32_at(bo: ByteOrder, s: Seq<u8>, i: int) -> u32 {
    match bo {
        ByteOrder::Little => (s[i] + s[i + 1] * 0x100 + s[i + 2] * 0x10000 + s[i + 3] * 0x1000000) as u32,
        ByteOrder::Big => (s[i + 3] + s[i + 2] * 0x100 + s[i + 1] * 0x10000 + s[i] * 0x1000000) as u32,
    }
}

/// Reading back the two bytes of `v` recovers `v`.
pub proof fn lemma_u16_round(bo: ByteOrder, v: u16)
    ensures
        u16_of(bo, u16_bytes(bo, v)[0], u16_bytes(bo, v)[1]) == v,
{
}

/// Reading back the four bytes of `v` recovers `v`.
pub proof fn lemma_u32_round(bo: ByteOrder, v: u32)
    ensures
        u32_at(bo, u32_bytes(bo, v), 0) == v,
{
    let x = v as int;
    vstd::arithmetic::div_mod::lemma_fundamental_div_mod(x, 0x100);
    vstd::arithmetic::div_mod::lemma_fundamental_div_mod(x / 0x100, 0x100);
    vstd::arithmetic::div_mod::lemma_fundamental_div_mod(x / 0x10000, 0x100);
    vstd::arithmetic::div_mod::lemma_div_denominator(x, 0x100, 0x100);
    vstd::arithmetic::div_mod::lemma_div_denominator(x, 0x10000, 0x100);
    assert(x / 0x1000000 < 0x100) by {
        vstd::arithmetic::div_mod::lemma_div_is_ordered(x, 0xffffffff, 0x1000000);
    }
    vstd::arithmetic::div_mod::lemma_small_mod((x / 0x1000000) as nat, 0x100);
    assert(x == x % 0x100 + 0x100 * ((x / 0x100) % 0x100) + 0x10000 * ((x / 0x10000) % 0x100)
        + 0x1000000 * ((x / 0x1000000) % 0x100));
}

/// A `u16` read inside a larger buffer sees only its own two bytes.
pub proof fn lemma_u16_at_prefix(bo: ByteOrder, s: Seq<u8>, t: Seq<u8>, i: int)
    requires
        0 <= i,
        i + 2 <= s.len(),
    ensures
        u16_at(bo, s + t, i) == u16_at(bo, s, i),
{
}

/// Appends the two bytes of `v` in byte order `bo`.
pub fn write_u16(out: &mut Vec<u8>, bo: ByteOrder, v: u16)
    ensures
        final(out)@ == old(out)@ + u16_bytes(bo, v),
{
    let lo = (v % 0x100) as u8;
    let hi = (v / 0x100) as u8;
    match bo {
        ByteOrder::Little => {
            out.push(lo);
            out.push(hi);
        }
        ByteOrder::Big => {
            out.push(hi);
            out.push(lo);
        }
    }
    assert(out@ =~= old(out)@ + u16_bytes(bo, v));
}

/// Appends the four bytes of `v` in byte order `bo`.
pub fn write_u32(out: &mut Vec<u8>, bo: ByteOrder, v: u32)
    ensures
        final(out)@ == old(out)@ + u32_bytes(bo, v),
{
    let b0 = (v % 0x100) as u8;
    let b1 = ((v / 0x100) % 0x100) as u8;
    let b2 = ((v / 0x10000) % 0x100) as u8;
    let b3 = ((v / 0x1000000) % 0x100) as u8;
    match bo {
        ByteOrder::Little => {
            out.push(b0);
            out.push(b1);
            out.push(b2);
            out.push(b3);
        }
        ByteOrder::Big => {
            out.push(b3);
            out.push(b2);
            out.push(b1);
            out.push(b0);
        }
    }
    assert(out@ =~= old(out)@ + u32_bytes(bo, v));
}

/// Reads the `u16` at `pos`, or `UnexpectedEof` past the buffer end.
pub fn read_u16(data: &Vec<u8>, pos: usize, bo: ByteOrder) -> (r: Result<u16, MsbtError>)
    ensures
        pos + 2 <= data@.len() ==> r == Ok::<u16, MsbtError>(u16_at(bo, data@, pos as int)),
        pos + 2 > data@.len() ==> r == Err::<u16, MsbtError>(MsbtError::UnexpectedEof),
{
    if pos < data.len() && data.len() - pos >= 2 {
        let a = data[pos];
        let b = data[pos + 1];
        match bo {
            ByteOrder::Little => Ok(a as u16 + (b as u16) * 0x100),
            ByteOrder::Big => Ok(b as u16 + (a as u16) * 0x100),
        }
    } else {
        Err(MsbtError::UnexpectedEof)
    }
}

/// Reads the `u32` at `pos`, or `UnexpectedEof` past the buffer end.
pub fn read_u32(data: &Vec<u8>, pos: usize, bo: ByteOrder) -> (r: Result<u32, MsbtError>)
    ensures
        pos + 4 <= data@.len() ==> r == Ok::<u32, MsbtError>(u32_at(bo, data@, pos as int)),
        pos + 4 > data@.len() ==> r == Err::<u32, MsbtError>(MsbtError::UnexpectedEof),
{
    if pos < data.len() && data.len() - pos >= 4 {
        let a = data[pos] as u32;
        let b = data[pos + 1] as u32;
        let c = data[pos + 2] as u32;
        let d = data[pos + 3] as u32;
        match bo {
            ByteOrder::Little => Ok(a + b * 0x100 + c * 0x10000 + d * 0x1000000),
            ByteOrder::Big => Ok(d + c * 0x100 + b * 0x10000 + a * 0x1000000),
        }
    } else {
        Err(MsbtError::UnexpectedEof)
    }
}

} // verus!
