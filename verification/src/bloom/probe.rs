//! The probe of the filter.
//!
//! The filter is a flat, power-of-two array of 64-bit sectors. A key's hash picks one sector with
//! its low bits and four bit positions inside that sector with four of its bytes; the key is
//! present when all four bits are set.

use vstd::arithmetic::div_mod::lemma_fundamental_div_mod;
use vstd::arithmetic::div_mod::lemma_mod_bound;
use vstd::arithmetic::div_mod::lemma_mod_multiples_vanish;
use vstd::arithmetic::div_mod::lemma_small_mod;
use vstd::arithmetic::power2::lemma2_to64;
use vstd::arithmetic::power2::lemma2_to64_rest;
use vstd::arithmetic::power2::pow2;
use vstd::prelude::*;

verus! {

/// How many bits a key sets in its sector.
pub const BITS_PER_KEY: usize = 4;

/// Whether a number is a power of two.
pub open spec fn is_power_of_two(n: int) -> bool {
    exists|k: nat| n == #[trigger] pow2(k)
}

/// The bit position that byte `i` of a hash names: its low six bits.
pub open spec fn shift_at(hash: u64, i: int) -> u64 {
    (hash >> ((8 * i) as u64)) & 0x3f
}

/// The bits a key sets in its sector: one per high byte of its hash, lowest first.
pub open spec fn mask_spec(hash: u64) -> u64 {
    (1u64 << shift_at(hash, 4)) | (1u64 << shift_at(hash, 5)) | (1u64 << shift_at(hash, 6)) | (1u64
        << shift_at(hash, 7))
}

/// The sector of a hash.
pub open spec fn sector_of(n_sectors: int, hash: u64) -> int {
    hash as int % n_sectors
}

/// Whether the sectors have every bit of the key set.
pub open spec fn contains_spec(sectors: Seq<u64>, hash: u64) -> bool {
    sectors[sector_of(sectors.len() as int, hash)] & mask_spec(hash) == mask_spec(hash)
}

/// The sectors once a key is inserted.
pub open spec fn inserted(sectors: Seq<u64>, hash: u64) -> Seq<u64> {
    let i = sector_of(sectors.len() as int, hash);
    sectors.update(i, sectors[i] | mask_spec(hash))
}

/// The sectors once all of the keys are inserted.
pub open spec fn built(sectors: Seq<u64>, hashes: Seq<u64>) -> Seq<u64>
    decreases hashes.len(),
{
    if hashes.len() == 0 {
        sectors
    } else {
        inserted(built(sectors, hashes.drop_last()), hashes.last())
    }
}

/// A key that was inserted is found.
pub proof fn law_inserted_is_found(sectors: Seq<u64>, hash: u64)
    requires
        sectors.len() > 0,
    ensures
        contains_spec(inserted(sectors, hash), hash),
{
    let i = sector_of(sectors.len() as int, hash);
    let (word, mask) = (sectors[i], mask_spec(hash));
    assert((word | mask) & mask == mask) by (bit_vector);
}

/// A key that is found stays found when others are inserted.
pub proof fn law_found_stays_found(sectors: Seq<u64>, hash: u64, other: u64)
    requires
        sectors.len() > 0,
        contains_spec(sectors, hash),
    ensures
        contains_spec(inserted(sectors, other), hash),
{
    let i = sector_of(sectors.len() as int, hash);
    let (word, mask, more) = (sectors[i], mask_spec(hash), mask_spec(other));
    assert((word | more) & mask == mask) by (bit_vector)
        requires
            word & mask == mask,
    ;
}

/// There are no false negatives: every key of the build side is found, whatever the filter held
/// before and whatever else was inserted.
pub proof fn law_no_false_negatives(sectors: Seq<u64>, hashes: Seq<u64>, i: int)
    requires
        sectors.len() > 0,
        0 <= i < hashes.len(),
    ensures
        contains_spec(built(sectors, hashes), hashes[i]),
        built(sectors, hashes).len() == sectors.len(),
    decreases hashes.len(),
{
    let front = hashes.drop_last();
    lemma_built_len(sectors, front);
    if i < front.len() {
        law_no_false_negatives(sectors, front, i);
        law_found_stays_found(built(sectors, front), hashes[i], hashes.last());
    } else {
        law_inserted_is_found(built(sectors, front), hashes.last());
    }
}

proof fn lemma_built_len(sectors: Seq<u64>, hashes: Seq<u64>)
    requires
        sectors.len() > 0,
    ensures
        built(sectors, hashes).len() == sectors.len(),
    decreases hashes.len(),
{
    if hashes.len() > 0 {
        lemma_built_len(sectors, hashes.drop_last());
    }
}

/// Whether a sector has a bit set.
pub open spec fn has_bit(sector: u64, bit: int) -> bool {
    sector & (1u64 << (bit as u64)) != 0
}

/// The bit that byte `i` of a hash names: the byte modulo 64.
pub open spec fn named_bit(hash: u64, i: int) -> int {
    hash as int / pow2((8 * i) as nat) as int % 64
}

/// A key sets the four bits that the high bytes of its hash name, and no others.
pub proof fn law_mask_bits(hash: u64, bit: int)
    requires
        0 <= bit < 64,
    ensures
        has_bit(mask_spec(hash), bit) <==> (named_bit(hash, 4) == bit || named_bit(hash, 5) == bit
            || named_bit(hash, 6) == bit || named_bit(hash, 7) == bit),
{
    lemma2_to64();
    lemma2_to64_rest();
    let k = bit as u64;
    let (a, b, c, d) = (
        shift_at(hash, 4),
        shift_at(hash, 5),
        shift_at(hash, 6),
        shift_at(hash, 7),
    );
    lemma_shifts(hash);
    assert((((1u64 << a) | (1u64 << b) | (1u64 << c) | (1u64 << d)) & (1u64 << k) != 0) == (a == k
        || b == k || c == k || d == k)) by (bit_vector)
        requires
            a < 64,
            b < 64,
            c < 64,
            d < 64,
            k < 64,
    ;
}

/// The shifts of a hash are its high bytes modulo 64.
proof fn lemma_shifts(hash: u64)
    ensures
        shift_at(hash, 4) == hash as int / 0x1_0000_0000 % 64,
        shift_at(hash, 5) == hash as int / 0x100_0000_0000 % 64,
        shift_at(hash, 6) == hash as int / 0x1_0000_0000_0000 % 64,
        shift_at(hash, 7) == hash as int / 0x100_0000_0000_0000 % 64,
{
    assert(((hash >> 32) & 0x3f) == hash / 0x1_0000_0000 % 64 && ((hash >> 40) & 0x3f) == hash
        / 0x100_0000_0000 % 64 && ((hash >> 48) & 0x3f) == hash / 0x1_0000_0000_0000 % 64 && ((hash
        >> 56) & 0x3f) == hash / 0x100_0000_0000_0000 % 64) by (bit_vector);
}

/// A key is found exactly if the sector that the low bits of its hash pick has the four bits set
/// that its high bytes name.
pub proof fn law_found_bits(sectors: Seq<u64>, hash: u64, sector: int, q: int)
    requires
        0 <= sector < sectors.len(),
        hash == q * sectors.len() + sector,
    ensures
        contains_spec(sectors, hash) <==> (forall|i: int|
            4 <= i < 8 ==> has_bit(sectors[sector], #[trigger] named_bit(hash, i))),
{
    let n = sectors.len() as int;
    lemma_mod_multiples_vanish(q, sector, n);
    lemma_small_mod(sector as nat, n as nat);
    assert(q * n + sector == n * q + sector) by (nonlinear_arith);
    assert(sector_of(n, hash) == sector);
    lemma2_to64();
    lemma2_to64_rest();
    lemma_shifts(hash);
    let word = sectors[sector];
    let (a, b, c, d) = (
        shift_at(hash, 4),
        shift_at(hash, 5),
        shift_at(hash, 6),
        shift_at(hash, 7),
    );
    assert((word & ((1u64 << a) | (1u64 << b) | (1u64 << c) | (1u64 << d)) == ((1u64 << a) | (1u64
        << b) | (1u64 << c) | (1u64 << d))) == (word & (1u64 << a) != 0 && word & (1u64 << b) != 0
        && word & (1u64 << c) != 0 && word & (1u64 << d) != 0)) by (bit_vector)
        requires
            a < 64,
            b < 64,
            c < 64,
            d < 64,
    ;
    assert(named_bit(hash, 4) == a && named_bit(hash, 5) == b && named_bit(hash, 6) == c
        && named_bit(hash, 7) == d);
    if contains_spec(sectors, hash) {
        assert forall|i: int| 4 <= i < 8 implies has_bit(word, #[trigger] named_bit(hash, i)) by {
            assert(i == 4 || i == 5 || i == 6 || i == 7);
        }
    } else {
        if forall|i: int| 4 <= i < 8 ==> has_bit(word, #[trigger] named_bit(hash, i)) {
            assert(has_bit(word, named_bit(hash, 4)) && has_bit(word, named_bit(hash, 5))
                && has_bit(word, named_bit(hash, 6)) && has_bit(word, named_bit(hash, 7)));
        }
    }
}

/// A filter that nothing was inserted into finds nothing.
pub proof fn law_empty_finds_nothing(sectors: Seq<u64>, hash: u64)
    requires
        sectors.len() > 0,
        forall|i: int| 0 <= i < sectors.len() ==> #[trigger] sectors[i] == 0,
    ensures
        !contains_spec(sectors, hash),
{
    let n = sectors.len() as int;
    lemma_fundamental_div_mod(hash as int, n);
    lemma_mod_bound(hash as int, n);
    let sector = hash as int % n;
    assert(n * (hash as int / n) == (hash as int / n) * n) by (nonlinear_arith);
    law_found_bits(sectors, hash, sector, hash as int / n);
    assert(sectors[sector] == 0);
    let bit = named_bit(hash, 4) as u64;
    assert(0u64 & (1u64 << bit) == 0) by (bit_vector);
    assert(!has_bit(sectors[sector], named_bit(hash, 4)));
}

/// The sectors of a filter, as they stood when they were read.
#[derive(Clone, Copy)]
pub struct Sectors<'a> {
    sectors: &'a [u64],
}

impl<'a> View for Sectors<'a> {
    type V = Seq<u64>;

    closed spec fn view(&self) -> Seq<u64> {
        self.sectors@
    }
}

impl<'a> Sectors<'a> {
    #[verifier::type_invariant]
    spec fn wf(self) -> bool {
        self.sectors@.len() > 0
    }

    /// View the sectors of a filter, whose number is a power of two.
    pub fn new(sectors: &'a [u64]) -> (view: Self)
        requires
            is_power_of_two(sectors@.len() as int),
        ensures
            view@ == sectors@,
    {
        proof {
            let k = choose|k: nat| sectors@.len() == #[trigger] pow2(k);
            vstd::arithmetic::power2::lemma_pow2_pos(k);
        }
        Sectors { sectors }
    }

    fn index(&self, hash: u64) -> (index: usize)
        ensures
            index == sector_of(self@.len() as int, hash),
            index < self@.len(),
    {
        proof {
            use_type_invariant(&*self);
        }
        assert(self.sectors.len() == self@.len());
        let n: u64 = self.sectors.len() as u64;
        let index: u64 = hash % n;
        assert(index < n);
        index as usize
    }

    /// Whether the filter might contain a key with this hash.
    ///
    /// False positives are possible; false negatives are not.
    #[inline]
    pub fn contains(&self, hash: u64) -> (found: bool)
        ensures
            found == contains_spec(self@, hash),
    {
        let sector: u64 = self.sectors[self.index(hash)];
        let mask: u64 = sector_mask(hash);
        sector & mask == mask
    }
}

/// The bits a key sets in its sector: the high four bytes of the hash, each naming a bit by its
/// low six bits. The join reads these bytes in memory order, which on a little-endian machine are
/// those of the high half.
#[inline]
pub fn sector_mask(hash: u64) -> (mask: u64)
    ensures
        mask == mask_spec(hash),
{
    let a: u64 = (hash >> 32) & 0x3f;
    let b: u64 = (hash >> 40) & 0x3f;
    let c: u64 = (hash >> 48) & 0x3f;
    let d: u64 = (hash >> 56) & 0x3f;
    assert(((hash >> 32) & 0x3f) < 64) by (bit_vector);
    assert(((hash >> 40) & 0x3f) < 64) by (bit_vector);
    assert(((hash >> 48) & 0x3f) < 64) by (bit_vector);
    assert(((hash >> 56) & 0x3f) < 64) by (bit_vector);
    (1u64 << a) | (1u64 << b) | (1u64 << c) | (1u64 << d)
}

} // verus!
