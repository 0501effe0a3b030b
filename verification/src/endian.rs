//! Big-endian encodings of the fixed-width integers that the file formats use.

use vstd::prelude::*;

verus! {

/// The four bytes of `x`, most significant first.
pub open spec fn u32_be(x: u32) -> Seq<u8> {
    seq![
        (x / 0x100_0000) as u8,
        ((x / 0x1_0000) % 0x100) as u8,
        ((x / 0x100) % 0x100) as u8,
        (x % 0x100) as u8,
    ]
}

/// The number whose big-endian bytes are the first four of `s`.
pub open spec fn u32_from_be(s: Seq<u8>) -> u32
    recommends
        s.len() >= 4,
{
    (s[0] as int * 0x100_0000 + s[1] as int * 0x1_0000 + s[2] as int * 0x100 + s[3] as int) as u32
}

/// The eight bytes of `x`, most significant first.
pub open spec fn u64_be(x: u64) -> Seq<u8> {
    u32_be((x / 0x1_0000_0000) as u32) + u32_be((x % 0x1_0000_0000) as u32)
}

/// The number whose big-endian bytes are the first eight of `s`.
pub open spec fn u64_from_be(s: Seq<u8>) -> u64
    recommends
        s.len() >= 8,
{
    (u32_from_be(s.subrange(0, 4)) as int * 0x1_0000_0000 + u32_from_be(s.subrange(4, 8)) as int) as u64
}

/// Decoding undoes encoding, whatever follows the four bytes.
pub proof fn lemma_u32_be_roundtrip(x: u32, rest: Seq<u8>)
    ensures
        u32_be(x).len() == 4,
        u32_from_be(u32_be(x) + rest) == x,
        u32_from_be(u32_be(x)) == x,
{
    let s = u32_be(x);
    assert((s + rest)[0] == s[0]);
    assert((s + rest)[1] == s[1]);
    assert((s + rest)[2] == s[2]);
    assert((s + rest)[3] == s[3]);
}

/// Decoding undoes encoding, whatever follows the eight bytes.
pub proof fn lemma_u64_be_roundtrip(x: u64, rest: Seq<u8>)
    ensures
        u64_be(x).len() == 8,
        u64_from_be(u64_be(x) + rest) == x,
        u64_from_be(u64_be(x)) == x,
{
    let hi = (x / 0x1_0000_0000) as u32;
    let lo = (x % 0x1_0000_0000) as u32;
    lemma_u32_be_roundtrip(hi, Seq::empty());
    lemma_u32_be_roundtrip(lo, Seq::empty());
    let s = u64_be(x);
    assert(s.subrange(0, 4) =~= u32_be(hi));
    assert(s.subrange(4, 8) =~= u32_be(lo));
    assert((s + rest).subrange(0, 4) =~= u32_be(hi));
    assert((s + rest).subrange(4, 8) =~= u32_be(lo));
}

/// Appends the big-endian bytes of `x` to `buf`.
pub fn put_u32_be(buf: &mut Vec<u8>, x: u32)
    ensures
        final(buf)@ == old(buf)@ + u32_be(x),
{
    buf.push((x / 0x100_0000) as u8);
    buf.push(((x / 0x1_0000) % 0x100) as u8);
    buf.push(((x / 0x100) % 0x100) as u8);
    buf.push((x % 0x100) as u8);
    assert(buf@ =~= old(buf)@ + u32_be(x));
}

/// Reads the big-endian `u32` that starts at `pos`.
pub fn get_u32_be(data: &[u8], pos: usize) -> (x: u32)
    requires
        pos + 4 <= data@.len(),
    ensures
        x == u32_from_be(data@.subrange(pos as int, pos + 4)),
{
    let b0: u32 = data[pos] as u32;
    let b1: u32 = data[pos + 1] as u32;
    let b2: u32 = data[pos + 2] as u32;
    let b3: u32 = data[pos + 3] as u32;
    b0 * 0x100_0000 + b1 * 0x1_0000 + b2 * 0x100 + b3
}

/// Appends the big-endian bytes of `x` to `buf`.
pub fn put_u64_be(buf: &mut Vec<u8>, x: u64)
    ensures
        final(buf)@ == old(buf)@ + u64_be(x),
{
    put_u32_be(buf, (x / 0x1_0000_0000) as u32);
    put_u32_be(buf, (x % 0x1_0000_0000) as u32);
    assert(buf@ =~= old(buf)@ + u64_be(x));
}

/// Reads the big-endian `u64` that starts at `pos`.
pub fn get_u64_be(data: &[u8], pos: usize) -> (x: u64)
    requires
        pos + 8 <= data@.len(),
    ensures
        x == u64_from_be(data@.subrange(pos as int, pos + 8)),
{
    let len: usize = data.len();
    let hi: u32 = get_u32_be(data, pos);
    let lo: u32 = get_u32_be(data, pos + 4);
    proof {
        let s = data@.subrange(pos as int, pos + 8);
        assert(s.subrange(0, 4) =~= data@.subrange(pos as int, pos + 4));
        assert(s.subrange(4, 8) =~= data@.subrange(pos + 4, pos + 8));
    }
    (hi as u64) * 0x1_0000_0000 + (lo as u64)
}

/// The eight big-endian bytes of an identifier or index.
pub fn id_to_bin(id: u64) -> (bytes: Vec<u8>)
    ensures
        bytes@ == u64_be(id),
{
    let mut bytes: Vec<u8> = Vec::new();
    put_u64_be(&mut bytes, id);
    assert(bytes@ =~= u64_be(id));
    bytes
}

/// The identifier that the first eight bytes of `bytes` encode, or `None`
/// when there are fewer than eight.
pub fn bin_to_id(bytes: &[u8]) -> (id: Option<u64>)
    ensures
        bytes@.len() < 8 ==> id.is_none(),
        bytes@.len() >= 8 ==> id == Some(u64_from_be(bytes@.subrange(0, 8))),
{
    if bytes.len() < 8 {
        None
    } else {
        Some(get_u64_be(bytes, 0))
    }
}

} // verus!
