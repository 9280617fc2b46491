//! The hash functions of the join.

use vstd::arithmetic::div_mod::lemma_fundamental_div_mod;
use vstd::arithmetic::div_mod::lemma_mod_bound;
use vstd::arithmetic::div_mod::lemma_mod_multiples_vanish;
use vstd::arithmetic::div_mod::lemma_small_mod;
use vstd::arithmetic::power2::lemma2_to64;
use vstd::arithmetic::power2::lemma2_to64_rest;
use vstd::arithmetic::power2::pow2;
use vstd::prelude::*;

use crate::abi::PType;
use crate::le::read_u64;
use crate::le::u32_at;
use crate::le::u64_at;

verus! {

/// The hash of a NULL key.
pub const NULL_HASH: u64 = 0xbf58_476d_1ce4_e5b9;

/// The multiplier of the 64-bit mix, also used to mix in byte blocks.
pub const MULTIPLIER: u64 = 0xd6e8_feb8_6659_fd93;

/// The seed the byte length is mixed with.
pub const BYTES_SEED: u64 = 0xe17a_1465;

/// The multiplier of the byte length.
pub const BYTES_MULTIPLIER: u64 = 0xc6a4_a793_5bd1_e995;

/// The 64-bit mix: two rounds of folding the high half onto the low one and multiplying, and a
/// last folding.
#[verifier::opaque]
pub open spec fn murmur_spec(x: u64) -> u64 {
    let a = (x ^ (x >> 32)).wrapping_mul(MULTIPLIER);
    let b = (a ^ (a >> 32)).wrapping_mul(MULTIPLIER);
    b ^ (b >> 32)
}

/// Mix a 64-bit value.
#[inline]
pub fn murmur_hash64(x: u64) -> (hash: u64)
    ensures
        hash == murmur_spec(x),
{
    proof {
        reveal(murmur_spec);
    }
    let a: u64 = (x ^ (x >> 32)).wrapping_mul(MULTIPLIER);
    let b: u64 = (a ^ (a >> 32)).wrapping_mul(MULTIPLIER);
    b ^ (b >> 32)
}

/// The state after the first `n` blocks of eight bytes.
pub open spec fn blocks_state(bytes: Seq<u8>, n: nat) -> u64
    decreases n,
{
    if n == 0 {
        BYTES_SEED ^ (bytes.len() as u64).wrapping_mul(BYTES_MULTIPLIER)
    } else {
        (blocks_state(bytes, (n - 1) as nat) ^ u64_at(bytes, 8 * (n - 1))).wrapping_mul(MULTIPLIER)
    }
}

/// The bytes beyond the last whole block, padded with zeros to eight.
pub open spec fn padded_tail(bytes: Seq<u8>) -> Seq<u8> {
    let rest = bytes.skip(8 * (bytes.len() as int / 8));
    rest + Seq::new((8 - rest.len()) as nat, |i: int| 0u8)
}

/// The hash of a byte string: its length, its blocks, its padded tail, and a last mix.
pub open spec fn hash_bytes_spec(bytes: Seq<u8>) -> u64 {
    let state = blocks_state(bytes, bytes.len() / 8);
    murmur_spec(
        if bytes.len() % 8 == 0 {
            state
        } else {
            (state ^ u64_at(padded_tail(bytes), 0)).wrapping_mul(MULTIPLIER)
        },
    )
}

/// Hash a string or blob key.
pub fn hash_bytes(bytes: &[u8]) -> (hash: u64)
    ensures
        hash == hash_bytes_spec(bytes@),
{
    let len: usize = bytes.len();
    let n: usize = len / 8;
    let mut state: u64 = BYTES_SEED ^ (len as u64).wrapping_mul(BYTES_MULTIPLIER);
    let mut k: usize = 0;
    while k < n
        invariant
            k <= n,
            len == bytes@.len(),
            n == len / 8,
            state == blocks_state(bytes@, k as nat),
        decreases n - k,
    {
        state = (state ^ read_u64(bytes, 8 * k)).wrapping_mul(MULTIPLIER);
        k = k + 1;
    }
    if len % 8 != 0 {
        let mut tail: Vec<u8> = Vec::new();
        let mut i: usize = 8 * n;
        let ghost rest = bytes@.skip(8 * n as int);
        while i < len
            invariant
                8 * n <= i <= len,
                len == bytes@.len(),
                rest == bytes@.skip(8 * n as int),
                tail@ == rest.take(i - 8 * n),
            decreases len - i,
        {
            tail.push(bytes[i]);
            i = i + 1;
            assert(tail@ =~= rest.take(i - 8 * n));
        }
        assert(tail@ =~= rest);
        while tail.len() < 8
            invariant
                rest.len() <= tail@.len() <= 8,
                tail@ == rest + Seq::new((tail@.len() - rest.len()) as nat, |i: int| 0u8),
            decreases 8 - tail@.len(),
        {
            tail.push(0);
            assert(tail@ =~= rest + Seq::new((tail@.len() - rest.len()) as nat, |i: int| 0u8));
        }
        assert(tail@ =~= padded_tail(bytes@));
        state = (state ^ read_u64(tail.as_slice(), 0)).wrapping_mul(MULTIPLIER);
    }
    murmur_hash64(state)
}

/// The hash the join computes for a value of a physical type.
pub trait DuckDbHash: Copy {
    /// The hash.
    spec fn hash_spec(self) -> u64;

    /// The hash.
    fn duckdb_hash(self) -> (hash: u64)
        ensures
            hash == self.hash_spec(),
    ;
}

// Types narrower than 64 bits are widened to 32 bits first: signed types sign-extend before being
// truncated, unsigned types zero-extend.

impl DuckDbHash for i8 {
    open spec fn hash_spec(self) -> u64 {
        murmur_spec(self as u32 as u64)
    }

    #[inline]
    fn duckdb_hash(self) -> u64 {
        murmur_hash64(self as u32 as u64)
    }
}

impl DuckDbHash for i16 {
    open spec fn hash_spec(self) -> u64 {
        murmur_spec(self as u32 as u64)
    }

    #[inline]
    fn duckdb_hash(self) -> u64 {
        murmur_hash64(self as u32 as u64)
    }
}

impl DuckDbHash for i32 {
    open spec fn hash_spec(self) -> u64 {
        murmur_spec(self as u32 as u64)
    }

    #[inline]
    fn duckdb_hash(self) -> u64 {
        murmur_hash64(self as u32 as u64)
    }
}

impl DuckDbHash for i64 {
    open spec fn hash_spec(self) -> u64 {
        murmur_spec(self as u64)
    }

    #[inline]
    fn duckdb_hash(self) -> u64 {
        murmur_hash64(self as u64)
    }
}

impl DuckDbHash for u8 {
    open spec fn hash_spec(self) -> u64 {
        murmur_spec(self as u64)
    }

    #[inline]
    fn duckdb_hash(self) -> u64 {
        murmur_hash64(self as u64)
    }
}

impl DuckDbHash for u16 {
    open spec fn hash_spec(self) -> u64 {
        murmur_spec(self as u64)
    }

    #[inline]
    fn duckdb_hash(self) -> u64 {
        murmur_hash64(self as u64)
    }
}

impl DuckDbHash for u32 {
    open spec fn hash_spec(self) -> u64 {
        murmur_spec(self as u64)
    }

    #[inline]
    fn duckdb_hash(self) -> u64 {
        murmur_hash64(self as u64)
    }
}

impl DuckDbHash for u64 {
    open spec fn hash_spec(self) -> u64 {
        murmur_spec(self)
    }

    #[inline]
    fn duckdb_hash(self) -> u64 {
        murmur_hash64(self)
    }
}

impl DuckDbHash for bool {
    open spec fn hash_spec(self) -> u64 {
        murmur_spec(
            if self {
                1
            } else {
                0
            },
        )
    }

    /// A boolean is stored, and hashed, as an `i8`.
    #[inline]
    fn duckdb_hash(self) -> u64 {
        let stored: i8 = if self {
            1
        } else {
            0
        };
        stored.duckdb_hash()
    }
}

/// The bits of a 32-bit float with negative zero and non-canonical NaNs collapsed, so that values
/// comparing equal hash equally.
pub open spec fn normal_f32(bits: u32) -> u32 {
    let magnitude = bits % 0x8000_0000;
    if magnitude == 0 {
        0
    } else if magnitude > 0x7f80_0000 {
        0x7fc0_0000
    } else {
        bits
    }
}

/// The bits of a 64-bit float with negative zero and non-canonical NaNs collapsed.
pub open spec fn normal_f64(bits: u64) -> u64 {
    let magnitude = bits % 0x8000_0000_0000_0000;
    if magnitude == 0 {
        0
    } else if magnitude > 0x7ff0_0000_0000_0000 {
        0x7ff8_0000_0000_0000
    } else {
        bits
    }
}

/// Collapse negative zero and non-canonical NaNs of a 32-bit float, given by its bits.
#[inline]
pub fn normalize_f32(bits: u32) -> (normal: u32)
    ensures
        normal == normal_f32(bits),
{
    let magnitude: u32 = bits % 0x8000_0000;
    if magnitude == 0 {
        0
    } else if magnitude > 0x7f80_0000 {
        0x7fc0_0000
    } else {
        bits
    }
}

/// Collapse negative zero and non-canonical NaNs of a 64-bit float, given by its bits.
#[inline]
pub fn normalize_f64(bits: u64) -> (normal: u64)
    ensures
        normal == normal_f64(bits),
{
    let magnitude: u64 = bits % 0x8000_0000_0000_0000;
    if magnitude == 0 {
        0
    } else if magnitude > 0x7ff0_0000_0000_0000 {
        0x7ff8_0000_0000_0000
    } else {
        bits
    }
}

/// Whether the bits of a 32-bit float are those of a NaN.
pub open spec fn is_nan_f32(bits: u32) -> bool {
    bits % 0x8000_0000 > 0x7f80_0000
}

/// Whether the bits of a 64-bit float are those of a NaN.
pub open spec fn is_nan_f64(bits: u64) -> bool {
    bits % 0x8000_0000_0000_0000 > 0x7ff0_0000_0000_0000
}

/// Float keys that a join treats as equal have one normal form: the two zeros, any two NaNs, and
/// otherwise equal bits only.
pub proof fn law_normal_forms(a: u32, b: u32, c: u64, d: u64)
    ensures
        (normal_f32(a) == normal_f32(b)) <==> (a == b || (a % 0x8000_0000 == 0 && b % 0x8000_0000
            == 0) || (is_nan_f32(a) && is_nan_f32(b))),
        (normal_f64(c) == normal_f64(d)) <==> (c == d || (c % 0x8000_0000_0000_0000 == 0 && d
            % 0x8000_0000_0000_0000 == 0) || (is_nan_f64(c) && is_nan_f64(d))),
        normal_f32(normal_f32(a)) == normal_f32(a),
        normal_f64(normal_f64(c)) == normal_f64(c),
{
}

/// The hash of a primitive value, given its bits zero-extended to 64; `None` for half-precision
/// floats, which the join has no type for.
pub open spec fn hash_bits_spec(ptype: PType, bits: u64) -> Option<u64> {
    match ptype {
        PType::I8 => Some((bits as i8).hash_spec()),
        PType::I16 => Some((bits as i16).hash_spec()),
        PType::I32 => Some((bits as i32).hash_spec()),
        PType::I64 => Some((bits as i64).hash_spec()),
        PType::U8 => Some((bits as u8).hash_spec()),
        PType::U16 => Some((bits as u16).hash_spec()),
        PType::U32 => Some((bits as u32).hash_spec()),
        PType::U64 => Some(bits.hash_spec()),
        PType::F32 => Some(murmur_spec(normal_f32(bits as u32) as u64)),
        PType::F64 => Some(murmur_spec(normal_f64(bits))),
        PType::F16 => None,
    }
}

/// What the multiplier of the 64-bit mix is multiplied with to give one, modulo two to the 64th.
pub open spec fn multiplier_inverse() -> u64 {
    0xcfee_444d_8b59_a89b
}

/// Multiplying with a number, and then with its inverse, gives back what was multiplied.
proof fn lemma_inverse(x: int, m: int, inverse: int, q: int, modulus: int)
    requires
        0 <= x < modulus,
        m * inverse == 1 + q * modulus,
    ensures
        (((x * m) % modulus) * inverse) % modulus == x,
{
    let c = (x * m) / modulus;
    let y = (x * m) % modulus;
    lemma_fundamental_div_mod(x * m, modulus);
    let t = x * q - c * inverse;
    assert(y * inverse == modulus * t + x) by (nonlinear_arith)
        requires
            x * m == modulus * c + y,
            m * inverse == 1 + q * modulus,
            t == x * q - c * inverse,
    ;
    lemma_mod_multiples_vanish(t, x, modulus);
    lemma_small_mod(x as nat, modulus as nat);
}

/// A multiplication of the mix can be undone.
proof fn lemma_multiply_undone(x: u64)
    ensures
        x.wrapping_mul(MULTIPLIER).wrapping_mul(multiplier_inverse()) == x,
{
    lemma_inverse(
        x as int,
        MULTIPLIER as int,
        multiplier_inverse() as int,
        0xae8e_6bea_e6eb_4b34,
        0x1_0000_0000_0000_0000,
    );
}

/// A folding of the mix can be undone.
proof fn lemma_fold_undone(x: u64)
    ensures
        (x ^ (x >> 32)) ^ ((x ^ (x >> 32)) >> 32) == x,
{
    assert((x ^ (x >> 32)) ^ ((x ^ (x >> 32)) >> 32) == x) by (bit_vector);
}

/// The value that the 64-bit mix takes to a hash: the foldings and multiplications undone, the last
/// one first.
pub open spec fn unmixed(hash: u64) -> u64 {
    let b = hash ^ (hash >> 32);
    let c = b.wrapping_mul(multiplier_inverse());
    let a = c ^ (c >> 32);
    let d = a.wrapping_mul(multiplier_inverse());
    d ^ (d >> 32)
}

/// The 64-bit mix of every value can be undone.
pub proof fn law_mix_is_undone(x: u64)
    ensures
        unmixed(murmur_spec(x)) == x,
{
    reveal(murmur_spec);
    let f = x ^ (x >> 32);
    let a = f.wrapping_mul(MULTIPLIER);
    let g = a ^ (a >> 32);
    let b = g.wrapping_mul(MULTIPLIER);
    lemma_fold_undone(x);
    lemma_fold_undone(a);
    lemma_fold_undone(b);
    lemma_multiply_undone(f);
    lemma_multiply_undone(g);
}

/// The 64-bit mix takes different values to different hashes.
pub proof fn law_mix_is_injective(x: u64, y: u64)
    ensures
        murmur_spec(x) == murmur_spec(y) <==> x == y,
{
    law_mix_is_undone(x);
    law_mix_is_undone(y);
}

/// What the multiplier of the byte length is multiplied with to give one, modulo two to the 64th.
spec fn bytes_multiplier_inverse() -> u64 {
    0x5f7a_0ea7_e59b_19bd
}

/// The eight bytes from byte `8 * k` on, with zeros beyond the end.
pub open spec fn block(bytes: Seq<u8>, k: int) -> Seq<u8> {
    Seq::new(
        8,
        |i: int|
            if 8 * k + i < bytes.len() {
                bytes[8 * k + i]
            } else {
                0u8
            },
    )
}

/// How many blocks there are, the last one padded.
pub open spec fn block_count(bytes: Seq<u8>) -> int {
    (bytes.len() as int + 7) / 8
}

/// The state after the first `n` blocks, padded ones among them: each is folded into the state, and
/// the state multiplied.
pub open spec fn absorbed(bytes: Seq<u8>, n: int) -> u64
    decreases n,
{
    if n <= 0 {
        BYTES_SEED ^ (bytes.len() as u64).wrapping_mul(BYTES_MULTIPLIER)
    } else {
        (absorbed(bytes, n - 1) ^ u64_at(block(bytes, n - 1), 0)).wrapping_mul(MULTIPLIER)
    }
}

/// Whole blocks are absorbed as they are.
proof fn lemma_absorbed_blocks(bytes: Seq<u8>, n: nat)
    requires
        8 * n <= bytes.len(),
    ensures
        absorbed(bytes, n as int) == blocks_state(bytes, n),
    decreases n,
{
    if n > 0 {
        lemma_absorbed_blocks(bytes, (n - 1) as nat);
        reveal(u64_at);
        reveal(u32_at);
        let last = block(bytes, n - 1);
        assert(last[0] == bytes[8 * (n - 1)]);
        assert(u64_at(last, 0) == u64_at(bytes, 8 * (n - 1)));
    }
}

/// The hash of a byte string is the mix of the state after all its blocks, whole or padded, in order.
pub proof fn law_hash_absorbs(bytes: Seq<u8>)
    ensures
        hash_bytes_spec(bytes) == murmur_spec(absorbed(bytes, block_count(bytes))),
{
    let n = bytes.len() / 8;
    lemma_absorbed_blocks(bytes, n);
    if bytes.len() % 8 != 0 {
        assert(block_count(bytes) == n + 1);
        assert(padded_tail(bytes) =~= block(bytes, n as int));
        assert(absorbed(bytes, n as int + 1) == (absorbed(bytes, n as int) ^ u64_at(
            block(bytes, n as int),
            0,
        )).wrapping_mul(MULTIPLIER));
    }
}

/// Blocks of different bytes are different words.
proof fn lemma_word_is_injective(a: Seq<u8>, b: Seq<u8>)
    requires
        a.len() == 8,
        b.len() == 8,
        u64_at(a, 0) == u64_at(b, 0),
    ensures
        a == b,
{
    reveal(u64_at);
    assert(u32_at(a, 0) == u32_at(b, 0) && u32_at(a, 4) == u32_at(b, 4));
    lemma_half_word(a, b, 0);
    lemma_half_word(a, b, 4);
    assert(a =~= b);
}

/// Four bytes are given by the number they are.
proof fn lemma_half_word(a: Seq<u8>, b: Seq<u8>, at: int)
    requires
        u32_at(a, at) == u32_at(b, at),
    ensures
        a[at] == b[at],
        a[at + 1] == b[at + 1],
        a[at + 2] == b[at + 2],
        a[at + 3] == b[at + 3],
{
    reveal(u32_at);
}

/// Different states stay different over one word, and different words make one state different.
proof fn lemma_step_is_injective(s: u64, t: u64, v: u64, w: u64)
    ensures
        (s ^ w).wrapping_mul(MULTIPLIER) == (t ^ w).wrapping_mul(MULTIPLIER) ==> s == t,
        (s ^ v).wrapping_mul(MULTIPLIER) == (s ^ w).wrapping_mul(MULTIPLIER) ==> v == w,
{
    lemma_multiply_undone(s ^ w);
    lemma_multiply_undone(t ^ w);
    lemma_multiply_undone(s ^ v);
    assert((s ^ w == t ^ w ==> s == t) && (s ^ v == s ^ w ==> v == w)) by (bit_vector);
}

/// States that differ stay different over equal blocks.
proof fn lemma_difference_stays(a: Seq<u8>, b: Seq<u8>, from: int, n: int)
    requires
        0 <= from <= n,
        absorbed(a, from) != absorbed(b, from),
        forall|k: int| from <= k < n ==> #[trigger] block(a, k) == block(b, k),
    ensures
        absorbed(a, n) != absorbed(b, n),
    decreases n - from,
{
    if from < n {
        lemma_difference_stays(a, b, from, n - 1);
        assert(block(a, n - 1) == block(b, n - 1));
        let word = u64_at(block(a, n - 1), 0);
        lemma_step_is_injective(absorbed(a, n - 1), absorbed(b, n - 1), word, word);
    }
}

/// States are equal over equal blocks.
proof fn lemma_equality_stays(a: Seq<u8>, b: Seq<u8>, n: int)
    requires
        a.len() == b.len(),
        forall|k: int| 0 <= k < n ==> #[trigger] block(a, k) == block(b, k),
    ensures
        absorbed(a, n) == absorbed(b, n),
    decreases n,
{
    if n > 0 {
        lemma_equality_stays(a, b, n - 1);
        assert(block(a, n - 1) == block(b, n - 1));
    }
}

/// Every byte counts: byte strings of one length that differ within one block of eight bytes alone
/// hash differently.
pub proof fn law_hash_bytes_differ(a: Seq<u8>, b: Seq<u8>, k: int)
    requires
        a.len() == b.len(),
        a != b,
        forall|i: int| 0 <= i < a.len() && i / 8 != k ==> #[trigger] a[i] == b[i],
    ensures
        hash_bytes_spec(a) != hash_bytes_spec(b),
{
    let n = block_count(a);
    assert(exists|i: int| 0 <= i < a.len() && #[trigger] a[i] != b[i]) by {
        if forall|i: int| 0 <= i < a.len() ==> #[trigger] a[i] == b[i] {
            assert(a =~= b);
        }
    }
    let i = choose|i: int| 0 <= i < a.len() && #[trigger] a[i] != b[i];
    assert(i / 8 == k && 0 <= k < n);
    assert forall|j: int| 0 <= j < n && j != k implies #[trigger] block(a, j) == block(b, j) by {
        assert forall|m: int| 0 <= m < 8 implies #[trigger] block(a, j)[m] == block(b, j)[m] by {
            if 8 * j + m < a.len() {
                assert((8 * j + m) / 8 == j);
                assert(a[8 * j + m] == b[8 * j + m]);
            }
        }
        assert(block(a, j) =~= block(b, j));
    }
    lemma_equality_stays(a, b, k);
    assert(block(a, k)[i - 8 * k] == a[i] && block(b, k)[i - 8 * k] == b[i]);
    if u64_at(block(a, k), 0) == u64_at(block(b, k), 0) {
        lemma_word_is_injective(block(a, k), block(b, k));
    }
    let v = u64_at(block(a, k), 0);
    let w = u64_at(block(b, k), 0);
    lemma_step_is_injective(absorbed(a, k), absorbed(a, k), v, w);
    assert(absorbed(a, k + 1) != absorbed(b, k + 1));
    lemma_difference_stays(a, b, k + 1, n);
    law_hash_absorbs(a);
    law_hash_absorbs(b);
    law_mix_is_injective(absorbed(a, n), absorbed(b, n));
}

/// The length counts: a byte string and the same one with zeros appended within its last block hash
/// differently.
pub proof fn law_hash_bytes_len(a: Seq<u8>, b: Seq<u8>)
    requires
        a.len() < b.len() <= u64::MAX,
        block_count(a) == block_count(b),
        forall|i: int| 0 <= i < a.len() ==> #[trigger] b[i] == a[i],
        forall|i: int| a.len() <= i < b.len() ==> #[trigger] b[i] == 0,
    ensures
        hash_bytes_spec(a) != hash_bytes_spec(b),
{
    let n = block_count(a);
    let modulus: int = 0x1_0000_0000_0000_0000;
    let q: int = (BYTES_MULTIPLIER * bytes_multiplier_inverse() - 1) / modulus;
    let la = a.len() as u64;
    let lb = b.len() as u64;
    let ma = la.wrapping_mul(BYTES_MULTIPLIER);
    let mb = lb.wrapping_mul(BYTES_MULTIPLIER);
    assert(ma != mb) by {
        lemma_inverse(
            la as int,
            BYTES_MULTIPLIER as int,
            bytes_multiplier_inverse() as int,
            q,
            modulus,
        );
        lemma_inverse(
            lb as int,
            BYTES_MULTIPLIER as int,
            bytes_multiplier_inverse() as int,
            q,
            modulus,
        );
    }
    let seed = BYTES_SEED;
    assert(seed ^ ma == seed ^ mb ==> ma == mb) by (bit_vector);
    assert forall|j: int| 0 <= j < n implies #[trigger] block(a, j) == block(b, j) by {
        assert forall|m: int| 0 <= m < 8 implies #[trigger] block(a, j)[m] == block(b, j)[m] by {
            if 8 * j + m < a.len() {
                assert(b[8 * j + m] == a[8 * j + m]);
            } else if 8 * j + m < b.len() {
                assert(b[8 * j + m] == 0);
            }
        }
        assert(block(a, j) =~= block(b, j));
    }
    lemma_difference_stays(a, b, 0, n);
    law_hash_absorbs(a);
    law_hash_absorbs(b);
    law_mix_is_injective(absorbed(a, n), absorbed(b, n));
}

/// The word that an integer is mixed as: its value modulo two to the 32nd, or to the 64th for a
/// type of eight bytes.
pub open spec fn mixed_word(value: int, width: nat) -> u64 {
    if width == 8 {
        (value % 0x1_0000_0000_0000_0000) as u64
    } else {
        (value % 0x1_0000_0000) as u64
    }
}

/// An integer key hashes to the mix of its value, extended by the sign of its type to 32 bits, or
/// taken whole in 64; a boolean hashes as the number 0 or 1.
pub proof fn law_hash_is_mixed_value(
    a: i8,
    b: i16,
    c: i32,
    d: i64,
    e: u8,
    f: u16,
    g: u32,
    h: u64,
    i: bool,
)
    ensures
        a.hash_spec() == murmur_spec(mixed_word(a as int, 1)),
        b.hash_spec() == murmur_spec(mixed_word(b as int, 2)),
        c.hash_spec() == murmur_spec(mixed_word(c as int, 4)),
        d.hash_spec() == murmur_spec(mixed_word(d as int, 8)),
        e.hash_spec() == murmur_spec(mixed_word(e as int, 1)),
        f.hash_spec() == murmur_spec(mixed_word(f as int, 2)),
        g.hash_spec() == murmur_spec(mixed_word(g as int, 4)),
        h.hash_spec() == murmur_spec(mixed_word(h as int, 8)),
        i.hash_spec() == murmur_spec(
            mixed_word(
                if i {
                    1
                } else {
                    0
                },
                1,
            ),
        ),
{
    assert(a as u32 == if a >= 0 {
        a as int
    } else {
        a + 0x1_0000_0000
    }) by (bit_vector);
    assert(b as u32 == if b >= 0 {
        b as int
    } else {
        b + 0x1_0000_0000
    }) by (bit_vector);
    assert(c as u32 == if c >= 0 {
        c as int
    } else {
        c + 0x1_0000_0000
    }) by (bit_vector);
    assert(d as u64 == if d >= 0 {
        d as int
    } else {
        d + 0x1_0000_0000_0000_0000
    }) by (bit_vector);
}

/// Whether a type holds signed integers.
pub open spec fn is_signed(ptype: PType) -> bool {
    ptype == PType::I8 || ptype == PType::I16 || ptype == PType::I32 || ptype == PType::I64
}

/// Whether a type holds floats.
pub open spec fn is_float(ptype: PType) -> bool {
    ptype == PType::F16 || ptype == PType::F32 || ptype == PType::F64
}

/// The bits of a value of a type, out of bits zero-extended to 64.
pub open spec fn value_bits(ptype: PType, bits: u64) -> int {
    bits as int % pow2(8 * ptype.width()) as int
}

/// The integer that the bits of a type are: in two's complement where the type is signed.
pub open spec fn integer_of(ptype: PType, bits: u64) -> int {
    let n = value_bits(ptype, bits);
    if is_signed(ptype) && 2 * n >= pow2(8 * ptype.width()) {
        n - pow2(8 * ptype.width())
    } else {
        n
    }
}

/// The bits of an integer key hash to the mix of the integer that they are. Half-precision floats
/// alone have no hash.
pub proof fn law_hash_of_integer_bits(ptype: PType, bits: u64)
    ensures
        !is_float(ptype) ==> hash_bits_spec(ptype, bits) == Some(
            murmur_spec(mixed_word(integer_of(ptype, bits), ptype.width())),
        ),
        hash_bits_spec(ptype, bits) is None <==> ptype == PType::F16,
{
    lemma2_to64();
    lemma2_to64_rest();
    lemma_truncated_bits(bits);
    law_hash_is_mixed_value(
        bits as i8,
        bits as i16,
        bits as i32,
        bits as i64,
        bits as u8,
        bits as u16,
        bits as u32,
        bits,
        true,
    );
}

/// What is left of bits in narrower types.
proof fn lemma_truncated_bits(bits: u64)
    ensures
        bits as u8 == bits % 0x100,
        bits as u16 == bits % 0x1_0000,
        bits as u32 == bits % 0x1_0000_0000,
        bits % 0x100 < 0x80 ==> bits as i8 == bits % 0x100,
        bits % 0x100 >= 0x80 ==> bits as i8 == bits % 0x100 - 0x100,
        bits % 0x1_0000 < 0x8000 ==> bits as i16 == bits % 0x1_0000,
        bits % 0x1_0000 >= 0x8000 ==> bits as i16 == bits % 0x1_0000 - 0x1_0000,
        bits % 0x1_0000_0000 < 0x8000_0000 ==> bits as i32 == bits % 0x1_0000_0000,
        bits % 0x1_0000_0000 >= 0x8000_0000 ==> bits as i32 == bits % 0x1_0000_0000 - 0x1_0000_0000,
        bits < 0x8000_0000_0000_0000 ==> bits as i64 == bits,
        bits >= 0x8000_0000_0000_0000 ==> bits as i64 == bits - 0x1_0000_0000_0000_0000,
{
    assert(bits as u8 == bits % 0x100 && bits as u16 == bits % 0x1_0000 && bits as u32 == bits
        % 0x1_0000_0000) by (bit_vector);
    assert((bits % 0x100 < 0x80 ==> bits as i8 == bits % 0x100) && (bits % 0x100 >= 0x80 ==> bits as i8 == bits % 0x100 - 0x100)) by (bit_vector);
    assert((bits % 0x1_0000 < 0x8000 ==> bits as i16 == bits % 0x1_0000) && (bits % 0x1_0000 >= 0x8000 ==> bits as i16 == bits % 0x1_0000 - 0x1_0000)) by (bit_vector);
    assert((bits % 0x1_0000_0000 < 0x8000_0000 ==> bits as i32 == bits % 0x1_0000_0000) && (bits % 0x1_0000_0000 >= 0x8000_0000 ==> bits as i32 == bits % 0x1_0000_0000 - 0x1_0000_0000)) by (bit_vector);
    assert((bits < 0x8000_0000_0000_0000 ==> bits as i64 == bits) && (bits >= 0x8000_0000_0000_0000 ==> bits as i64 == bits - 0x1_0000_0000_0000_0000)) by (bit_vector);
}

/// Whether the bits are of a zero: no bit is set but the sign.
pub open spec fn is_zero_float(ptype: PType, bits: u64) -> bool {
    value_bits(ptype, bits) % pow2((8 * ptype.width() - 1) as nat) as int == 0
}

/// Whether the bits are of a NaN: every bit of the exponent is set, and one below it.
pub open spec fn is_nan_float(ptype: PType, bits: u64) -> bool {
    let magnitude = value_bits(ptype, bits) % pow2((8 * ptype.width() - 1) as nat) as int;
    if ptype == PType::F32 {
        magnitude > 255 * pow2(23)
    } else {
        magnitude > 2047 * pow2(52)
    }
}

/// Whether the bits are one key to the join: equal, or two zeros, or two NaNs.
pub open spec fn same_key(ptype: PType, a: u64, b: u64) -> bool {
    ||| value_bits(ptype, a) == value_bits(ptype, b)
    ||| is_float(ptype) && is_zero_float(ptype, a) && is_zero_float(ptype, b)
    ||| is_float(ptype) && is_nan_float(ptype, a) && is_nan_float(ptype, b)
}

/// Keys of one type hash equally exactly if the join treats them as equal.
pub proof fn law_key_hashes(ptype: PType, a: u64, b: u64)
    requires
        ptype != PType::F16,
    ensures
        hash_bits_spec(ptype, a) == hash_bits_spec(ptype, b) <==> same_key(ptype, a, b),
{
    lemma2_to64();
    lemma2_to64_rest();
    lemma_truncated_bits(a);
    lemma_truncated_bits(b);
    if ptype == PType::F32 {
        law_normal_forms(a as u32, b as u32, 0, 0);
        law_mix_is_injective(normal_f32(a as u32) as u64, normal_f32(b as u32) as u64);
        assert(value_bits(ptype, a) == a as u32 && value_bits(ptype, b) == b as u32);
        assert(is_zero_float(ptype, a) <==> a as u32 % 0x8000_0000 == 0);
        assert(is_zero_float(ptype, b) <==> b as u32 % 0x8000_0000 == 0);
        assert(is_nan_float(ptype, a) <==> is_nan_f32(a as u32));
        assert(is_nan_float(ptype, b) <==> is_nan_f32(b as u32));
    } else if ptype == PType::F64 {
        law_normal_forms(0, 0, a, b);
        law_mix_is_injective(normal_f64(a), normal_f64(b));
        assert(pow2(8 * ptype.width()) == 0x1_0000_0000_0000_0000);
        lemma_small_mod(a as nat, pow2(8 * ptype.width()));
        lemma_small_mod(b as nat, pow2(8 * ptype.width()));
        assert(is_zero_float(ptype, a) <==> a % 0x8000_0000_0000_0000 == 0);
        assert(is_zero_float(ptype, b) <==> b % 0x8000_0000_0000_0000 == 0);
        assert(is_nan_float(ptype, a) <==> is_nan_f64(a));
        assert(is_nan_float(ptype, b) <==> is_nan_f64(b));
    } else {
        law_hash_of_integer_bits(ptype, a);
        law_hash_of_integer_bits(ptype, b);
        law_mix_is_injective(
            mixed_word(integer_of(ptype, a), ptype.width()),
            mixed_word(integer_of(ptype, b), ptype.width()),
        );
        lemma_word_of_bits(ptype, a);
        lemma_word_of_bits(ptype, b);
    }
}

/// The bits of an integer are found again in the word it is mixed as.
proof fn lemma_word_of_bits(ptype: PType, bits: u64)
    requires
        !is_float(ptype),
    ensures
        mixed_word(integer_of(ptype, bits), ptype.width()) as int % pow2(8 * ptype.width()) as int
            == value_bits(ptype, bits),
{
    lemma2_to64();
    lemma2_to64_rest();
    let w = ptype.width();
    let m = pow2(8 * w) as int;
    let n = value_bits(ptype, bits);
    if w == 8 {
        lemma_small_mod(bits as nat, pow2(8 * w));
        lemma_wrapped(n, m, 0x1_0000_0000_0000_0000, is_signed(ptype));
    } else {
        lemma_wrapped(n, m, 0x1_0000_0000, is_signed(ptype));
    }
}

/// A number modulo two powers of two, the smaller one last, is the number modulo the smaller one.
proof fn lemma_wrapped(n: int, m: int, modulus: int, signed: bool)
    requires
        m == 0x100 || m == 0x1_0000 || m == 0x1_0000_0000 || m == 0x1_0000_0000_0000_0000,
        modulus == if m == 0x1_0000_0000_0000_0000 {
            0x1_0000_0000_0000_0000int
        } else {
            0x1_0000_0000int
        },
        0 <= n < m,
    ensures
        ((if signed && 2 * n >= m {
            n - m
        } else {
            n
        }) % modulus) % m == n,
{
    if m == 0x100 {
        assert((n + 0x1_0000_0000 - 0x100) % 0x100 == n % 0x100);
    } else if m == 0x1_0000 {
        assert((n + 0x1_0000_0000 - 0x1_0000) % 0x1_0000 == n % 0x1_0000);
    }
}

/// Hash a primitive value, given its bits zero-extended to 64.
pub fn hash_bits(ptype: PType, bits: u64) -> (hash: Option<u64>)
    ensures
        hash == hash_bits_spec(ptype, bits),
{
    match ptype {
        PType::I8 => Some((bits as i8).duckdb_hash()),
        PType::I16 => Some((bits as i16).duckdb_hash()),
        PType::I32 => Some((bits as i32).duckdb_hash()),
        PType::I64 => Some((bits as i64).duckdb_hash()),
        PType::U8 => Some((bits as u8).duckdb_hash()),
        PType::U16 => Some((bits as u16).duckdb_hash()),
        PType::U32 => Some((bits as u32).duckdb_hash()),
        PType::U64 => Some(bits.duckdb_hash()),
        PType::F32 => Some(murmur_hash64(normalize_f32(bits as u32) as u64)),
        PType::F64 => Some(murmur_hash64(normalize_f64(bits))),
        PType::F16 => None,
    }
}

/// Integers of at most 32 bits hash by their value: equal ones equally, whatever their types, and
/// different ones of one signedness differently.
pub proof fn law_equal_integers_hash_equally(p: PType, a: u64, q: PType, b: u64)
    requires
        !is_float(p),
        !is_float(q),
        p.width() <= 4,
        q.width() <= 4,
    ensures
        integer_of(p, a) == integer_of(q, b) ==> hash_bits_spec(p, a) == hash_bits_spec(q, b),
        is_signed(p) == is_signed(q) && integer_of(p, a) != integer_of(q, b) ==> hash_bits_spec(p, a)
            != hash_bits_spec(q, b),
{
    law_hash_of_integer_bits(p, a);
    law_hash_of_integer_bits(q, b);
    let (x, y) = (integer_of(p, a), integer_of(q, b));
    lemma_integer_bounds(p, a);
    lemma_integer_bounds(q, b);
    law_mix_is_injective(mixed_word(x, p.width()), mixed_word(y, q.width()));
}

/// An integer of at most 32 bits is in the range of its signedness.
proof fn lemma_integer_bounds(ptype: PType, bits: u64)
    requires
        !is_float(ptype),
        ptype.width() <= 4,
    ensures
        is_signed(ptype) ==> -0x8000_0000 <= integer_of(ptype, bits) < 0x8000_0000,
        !is_signed(ptype) ==> 0 <= integer_of(ptype, bits) < 0x1_0000_0000,
{
    lemma2_to64();
    lemma2_to64_rest();
    let m = pow2(8 * ptype.width()) as int;
    assert(m == 0x100 || m == 0x1_0000 || m == 0x1_0000_0000);
    lemma_mod_bound(bits as int, m);
}

} // verus!
