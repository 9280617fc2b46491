//! Little-endian integers, as every frame of the host/guest boundary stores them.

use vstd::prelude::*;

verus! {

/// The four little-endian bytes of `x`.
#[verifier::opaque]
pub open spec fn u32_le(x: u32) -> Seq<u8> {
    seq![
        (x % 256) as u8,
        (x / 256 % 256) as u8,
        (x / 65536 % 256) as u8,
        (x / 16777216) as u8,
    ]
}

/// The little-endian `u32` stored in `bytes` at `offset`.
#[verifier::opaque]
pub open spec fn u32_at(bytes: Seq<u8>, offset: int) -> u32 {
    (bytes[offset] + 256 * bytes[offset + 1] + 65536 * bytes[offset + 2]
        + 16777216 * bytes[offset + 3]) as u32
}

/// The eight little-endian bytes of `x`.
#[verifier::opaque]
pub open spec fn u64_le(x: u64) -> Seq<u8> {
    u32_le((x % 4294967296) as u32) + u32_le((x / 4294967296) as u32)
}

/// The little-endian `u64` stored in `bytes` at `offset`.
#[verifier::opaque]
pub open spec fn u64_at(bytes: Seq<u8>, offset: int) -> u64 {
    (u32_at(bytes, offset) + 4294967296 * u32_at(bytes, offset + 4)) as u64
}

/// A stored `u32` takes four bytes.
pub broadcast proof fn lemma_u32_le_len(x: u32)
    ensures
        #[trigger] u32_le(x).len() == 4,
{
    reveal(u32_le);
}

/// A stored `u64` takes eight bytes.
pub broadcast proof fn lemma_u64_le_len(x: u64)
    ensures
        #[trigger] u64_le(x).len() == 8,
{
    reveal(u32_le);
    reveal(u64_le);
}

pub broadcast group group_le_len {
    lemma_u32_le_len,
    lemma_u64_le_len,
}

/// A piece of a sequence found inside another is found there too.
pub proof fn lemma_piece(bytes: Seq<u8>, offset: int, part: Seq<u8>, at: int, len: int)
    requires
        0 <= offset,
        0 <= at,
        0 <= len,
        at + len <= part.len(),
        offset + part.len() <= bytes.len(),
        bytes.subrange(offset, offset + part.len()) == part,
    ensures
        bytes.subrange(offset + at, offset + at + len) == part.subrange(at, at + len),
{
    let inner = bytes.subrange(offset, offset + part.len());
    assert forall|i: int| 0 <= i < len implies #[trigger] bytes.subrange(
        offset + at,
        offset + at + len,
    )[i] == inner.subrange(at, at + len)[i] by {}
    assert(bytes.subrange(offset + at, offset + at + len) =~= part.subrange(at, at + len));
}

/// Whether `part` stands at `offset` of `bytes`.
pub open spec fn stands_at(bytes: Seq<u8>, offset: int, part: Seq<u8>) -> bool {
    &&& 0 <= offset
    &&& offset + part.len() <= bytes.len()
    &&& bytes.subrange(offset, offset + part.len()) == part
}

/// The first of two parts stands where both do, and the second right after it.
pub proof fn lemma_split(bytes: Seq<u8>, offset: int, first: Seq<u8>, second: Seq<u8>)
    requires
        stands_at(bytes, offset, first + second),
    ensures
        stands_at(bytes, offset, first),
        stands_at(bytes, offset + first.len(), second),
{
    let both = first + second;
    lemma_piece(bytes, offset, both, 0, first.len() as int);
    lemma_piece(bytes, offset, both, first.len() as int, second.len() as int);
    assert(both.subrange(0, first.len() as int) =~= first);
    assert(both.subrange(first.len() as int, both.len() as int) =~= second);
}

/// The rest of the bytes from where `part` stands starts with it.
pub proof fn lemma_rest(bytes: Seq<u8>, offset: int, part: Seq<u8>)
    requires
        stands_at(bytes, offset, part),
    ensures
        stands_at(bytes.skip(offset), 0, part),
{
    assert(bytes.skip(offset).subrange(0, part.len() as int) =~= part);
}

/// Reading a stored `u32` gives back what was written.
pub proof fn lemma_u32_round_trip(bytes: Seq<u8>, offset: int, x: u32)
    requires
        0 <= offset,
        offset + 4 <= bytes.len(),
        bytes.subrange(offset, offset + 4) == u32_le(x),
    ensures
        u32_at(bytes, offset) == x,
{
    reveal(u32_le);
    reveal(u32_at);
    let s = bytes.subrange(offset, offset + 4);
    assert(s[0] == bytes[offset] && s[1] == bytes[offset + 1]);
    assert(s[2] == bytes[offset + 2] && s[3] == bytes[offset + 3]);
}

/// Reading a stored `u64` gives back what was written.
pub proof fn lemma_u64_round_trip(bytes: Seq<u8>, offset: int, x: u64)
    requires
        0 <= offset,
        offset + 8 <= bytes.len(),
        bytes.subrange(offset, offset + 8) == u64_le(x),
    ensures
        u64_at(bytes, offset) == x,
{
    broadcast use lemma_u32_le_len;

    reveal(u64_le);
    reveal(u64_at);
    let s = bytes.subrange(offset, offset + 8);
    assert(bytes.subrange(offset, offset + 4) =~= s.subrange(0, 4));
    assert(bytes.subrange(offset + 4, offset + 8) =~= s.subrange(4, 8));
    assert(s.subrange(0, 4) =~= u32_le((x % 4294967296) as u32));
    assert(s.subrange(4, 8) =~= u32_le((x / 4294967296) as u32));
    lemma_u32_round_trip(bytes, offset, (x % 4294967296) as u32);
    lemma_u32_round_trip(bytes, offset + 4, (x / 4294967296) as u32);
}

/// Append `bytes` to `out`.
pub fn push_bytes(out: &mut Vec<u8>, bytes: &[u8])
    ensures
        final(out)@ == old(out)@ + bytes@,
{
    out.extend_from_slice(bytes);
    assert(out@ =~= old(out)@ + bytes@);
}

/// Append the little-endian bytes of `x` to `out`.
pub fn push_u32(out: &mut Vec<u8>, x: u32)
    ensures
        final(out)@ == old(out)@ + u32_le(x),
{
    reveal(u32_le);
    out.push((x % 256) as u8);
    out.push((x / 256 % 256) as u8);
    out.push((x / 65536 % 256) as u8);
    out.push((x / 16777216) as u8);
    assert(out@ =~= old(out)@ + u32_le(x));
}

/// Append the little-endian bytes of `x` to `out`.
pub fn push_u64(out: &mut Vec<u8>, x: u64)
    ensures
        final(out)@ == old(out)@ + u64_le(x),
{
    reveal(u64_le);
    push_u32(out, (x % 4294967296) as u32);
    push_u32(out, (x / 4294967296) as u32);
    assert(out@ =~= old(out)@ + u64_le(x));
}

/// Read the little-endian `u32` at `offset`.
pub fn read_u32(bytes: &[u8], offset: usize) -> (x: u32)
    requires
        offset + 4 <= bytes@.len(),
    ensures
        x == u32_at(bytes@, offset as int),
{
    reveal(u32_at);
    bytes[offset] as u32 + 256 * (bytes[offset + 1] as u32) + 65536 * (bytes[offset + 2] as u32)
        + 16777216 * (bytes[offset + 3] as u32)
}

/// Read the little-endian `u64` at `offset`.
pub fn read_u64(bytes: &[u8], offset: usize) -> (x: u64)
    requires
        offset + 8 <= bytes@.len(),
    ensures
        x == u64_at(bytes@, offset as int),
{
    reveal(u64_at);
    assert(bytes.len() <= usize::MAX);
    read_u32(bytes, offset) as u64 + 4294967296 * (read_u32(bytes, offset + 4) as u64)
}

} // verus!
