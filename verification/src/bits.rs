//! LSB-first bitmaps.

use vstd::arithmetic::power2::pow2;
use vstd::bits::lemma_u8_shr_is_div;
use vstd::prelude::*;

verus! {

/// Bit `k` of a byte, counted from the least significant.
pub open spec fn byte_bit(byte: u8, k: int) -> bool {
    byte & (1u8 << (k as u8)) != 0
}

/// Bit `i` of a bitmap; bits beyond its end are clear.
pub open spec fn bit_at(bits: Seq<u8>, i: int) -> bool {
    0 <= i && i / 8 < bits.len() && byte_bit(bits[i / 8], i % 8)
}

/// The byte whose bit `k` is `f(start + k)`, for those below `n`.
pub open spec fn pack_byte(f: spec_fn(int) -> bool, n: int, start: int) -> u8 {
    let bit = |k: int| start + k < n && f(start + k);
    (if bit(0) { 1u8 } else { 0u8 }) | (if bit(1) { 2u8 } else { 0u8 }) | (if bit(2) {
        4u8
    } else {
        0u8
    }) | (if bit(3) { 8u8 } else { 0u8 }) | (if bit(4) { 16u8 } else { 0u8 }) | (if bit(5) {
        32u8
    } else {
        0u8
    }) | (if bit(6) { 64u8 } else { 0u8 }) | (if bit(7) { 128u8 } else { 0u8 })
}

/// The bitmap of `n` bits whose bit `i` is `f(i)`, with the padding of its last byte clear.
pub open spec fn pack(f: spec_fn(int) -> bool, n: int) -> Seq<u8> {
    Seq::new(((n + 7) / 8) as nat, |j: int| pack_byte(f, n, 8 * j))
}

/// A byte is determined by its bits.
proof fn lemma_byte_bits(a: u8, b: u8)
    requires
        forall|k: int| 0 <= k < 8 ==> #[trigger] byte_bit(a, k) == byte_bit(b, k),
    ensures
        a == b,
{
    assert(byte_bit(a, 0) == byte_bit(b, 0));
    assert(byte_bit(a, 1) == byte_bit(b, 1));
    assert(byte_bit(a, 2) == byte_bit(b, 2));
    assert(byte_bit(a, 3) == byte_bit(b, 3));
    assert(byte_bit(a, 4) == byte_bit(b, 4));
    assert(byte_bit(a, 5) == byte_bit(b, 5));
    assert(byte_bit(a, 6) == byte_bit(b, 6));
    assert(byte_bit(a, 7) == byte_bit(b, 7));
    assert(a == b) by (bit_vector)
        requires
            (a & (1u8 << 0u8) != 0) == (b & (1u8 << 0u8) != 0),
            (a & (1u8 << 1u8) != 0) == (b & (1u8 << 1u8) != 0),
            (a & (1u8 << 2u8) != 0) == (b & (1u8 << 2u8) != 0),
            (a & (1u8 << 3u8) != 0) == (b & (1u8 << 3u8) != 0),
            (a & (1u8 << 4u8) != 0) == (b & (1u8 << 4u8) != 0),
            (a & (1u8 << 5u8) != 0) == (b & (1u8 << 5u8) != 0),
            (a & (1u8 << 6u8) != 0) == (b & (1u8 << 6u8) != 0),
            (a & (1u8 << 7u8) != 0) == (b & (1u8 << 7u8) != 0),
    ;
}

/// Bit `k` of a packed byte is what was packed there.
proof fn lemma_pack_byte(f: spec_fn(int) -> bool, n: int, start: int, k: int)
    requires
        0 <= k < 8,
    ensures
        byte_bit(pack_byte(f, n, start), k) == (start + k < n && f(start + k)),
{
    let bit = |j: int| start + j < n && f(start + j);
    let (b0, b1, b2, b3) = (bit(0), bit(1), bit(2), bit(3));
    let (b4, b5, b6, b7) = (bit(4), bit(5), bit(6), bit(7));
    let byte = (if b0 { 1u8 } else { 0u8 }) | (if b1 { 2u8 } else { 0u8 }) | (if b2 {
        4u8
    } else {
        0u8
    }) | (if b3 { 8u8 } else { 0u8 }) | (if b4 { 16u8 } else { 0u8 }) | (if b5 {
        32u8
    } else {
        0u8
    }) | (if b6 { 64u8 } else { 0u8 }) | (if b7 { 128u8 } else { 0u8 });
    let ku = k as u8;
    assert((byte & (1u8 << ku) != 0) == ((ku == 0 && b0) || (ku == 1 && b1) || (ku == 2 && b2) || (ku
        == 3 && b3) || (ku == 4 && b4) || (ku == 5 && b5) || (ku == 6 && b6) || (ku == 7 && b7)))
        by (bit_vector)
        requires
            ku < 8,
            byte == (if b0 { 1u8 } else { 0u8 }) | (if b1 { 2u8 } else { 0u8 }) | (if b2 {
                4u8
            } else {
                0u8
            }) | (if b3 { 8u8 } else { 0u8 }) | (if b4 { 16u8 } else { 0u8 }) | (if b5 {
                32u8
            } else {
                0u8
            }) | (if b6 { 64u8 } else { 0u8 }) | (if b7 { 128u8 } else { 0u8 }),
    ;
}

/// Bit `i` of a packed bitmap is `f(i)` below `n` and clear from there on.
pub proof fn lemma_pack_bit(f: spec_fn(int) -> bool, n: int, i: int)
    requires
        0 <= n,
        0 <= i,
    ensures
        bit_at(pack(f, n), i) == (i < n && f(i)),
{
    if i / 8 < pack(f, n).len() {
        lemma_pack_byte(f, n, 8 * (i / 8), i % 8);
    }
}

/// A bitmap of the right length with the right bits is the packed one.
pub proof fn lemma_pack_unique(bits: Seq<u8>, f: spec_fn(int) -> bool, n: int)
    requires
        0 <= n,
        bits.len() == (n + 7) / 8,
        forall|i: int| 0 <= i < 8 * bits.len() ==> #[trigger] bit_at(bits, i) == (i < n && f(i)),
    ensures
        bits == pack(f, n),
{
    assert forall|j: int| 0 <= j < bits.len() implies bits[j] == pack(f, n)[j] by {
        assert forall|k: int| 0 <= k < 8 implies #[trigger] byte_bit(bits[j], k) == byte_bit(
            pack(f, n)[j],
            k,
        ) by {
            lemma_pack_byte(f, n, 8 * j, k);
            assert((8 * j + k) / 8 == j && (8 * j + k) % 8 == k);
            assert(bit_at(bits, 8 * j + k) == (8 * j + k < n && f(8 * j + k)));
        }
        lemma_byte_bits(bits[j], pack(f, n)[j]);
    }
    assert(bits =~= pack(f, n));
}

/// Setting one bit of a byte leaves the others as they were.
proof fn lemma_set_bit(byte: u8, k: int, j: int)
    requires
        0 <= k < 8,
        0 <= j < 8,
    ensures
        byte_bit(byte | (1u8 << (k as u8)), j) == (j == k || byte_bit(byte, j)),
{
    let (ku, ju) = (k as u8, j as u8);
    assert(((byte | (1u8 << ku)) & (1u8 << ju) != 0) == (ju == ku || byte & (1u8 << ju) != 0))
        by (bit_vector)
        requires
            ku < 8,
            ju < 8,
    ;
}

/// Whether bit `i` is set; bits beyond the end are clear.
pub fn bit(bits: &[u8], i: usize) -> (set: bool)
    ensures
        set == bit_at(bits@, i as int),
{
    if i / 8 < bits.len() {
        let byte: u8 = bits[i / 8];
        let k: u8 = (i % 8) as u8;
        byte & (1u8 << k) != 0
    } else {
        false
    }
}

/// Set bit `i`.
pub fn set_bit(bits: &mut Vec<u8>, i: usize)
    requires
        i / 8 < old(bits)@.len(),
    ensures
        final(bits)@.len() == old(bits)@.len(),
        forall|j: int|
            0 <= j < 8 * old(bits)@.len() ==> #[trigger] bit_at(final(bits)@, j) == (j == i
                || bit_at(old(bits)@, j)),
{
    let k: u8 = (i % 8) as u8;
    let byte: u8 = bits[i / 8];
    bits.set(i / 8, byte | (1u8 << k));
    proof {
        assert forall|j: int| 0 <= j < 8 * old(bits)@.len() implies #[trigger] bit_at(bits@, j) == (
        j == i || bit_at(old(bits)@, j)) by {
            lemma_set_bit(byte, k as int, j % 8);
        }
    }
}

/// A bitmap of `n` clear bits.
pub fn clear_bits(n: usize) -> (bits: Vec<u8>)
    ensures
        bits@.len() == (n + 7) / 8,
        forall|i: int| !#[trigger] bit_at(bits@, i),
{
    let bytes: usize = n / 8 + if n % 8 == 0 { 0 } else { 1 };
    let bits: Vec<u8> = vec![0u8; bytes];
    proof {
        assert forall|i: int| !#[trigger] bit_at(bits@, i) by {
            let k = (i % 8) as u8;
            assert(0u8 & (1u8 << k) == 0) by (bit_vector);
        }
    }
    bits
}

/// The bits of `bits` at `indices`, in order.
pub fn gather_bits(bits: &[u8], indices: &[u32]) -> (out: Vec<u8>)
    ensures
        out@ == pack(|i: int| bit_at(bits@, indices@[i] as int), indices@.len() as int),
{
    let ghost wanted = |i: int| bit_at(bits@, indices@[i] as int);
    let mut out: Vec<u8> = clear_bits(indices.len());
    let mut row: usize = 0;
    while row < indices.len()
        invariant
            row <= indices@.len(),
            out@.len() == (indices@.len() + 7) / 8,
            wanted == |i: int| bit_at(bits@, indices@[i] as int),
            forall|i: int|
                0 <= i < 8 * out@.len() ==> #[trigger] bit_at(out@, i) == (i < row && wanted(i)),
        decreases indices@.len() - row,
    {
        if bit(bits, indices[row] as usize) {
            set_bit(&mut out, row);
        }
        row = row + 1;
    }
    proof {
        lemma_pack_unique(out@, wanted, indices@.len() as int);
    }
    out
}

/// Bitmaps are read from the least significant bit of the first byte on: bit `i` is what is left of
/// byte `i / 8`, divided by two `i % 8` times, modulo two.
pub proof fn law_bit_order(bits: Seq<u8>, i: int)
    requires
        0 <= i < 8 * bits.len(),
    ensures
        bit_at(bits, i) <==> bits[i / 8] as int / pow2((i % 8) as nat) as int % 2 == 1,
{
    let byte = bits[i / 8];
    let k = (i % 8) as u8;
    assert((byte & (1u8 << k) != 0) == ((byte >> k) % 2 == 1)) by (bit_vector)
        requires
            k < 8,
    ;
    lemma_u8_shr_is_div(byte, k);
}

} // verus!
