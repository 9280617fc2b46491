//! A decoder for bit-packed 32-bit integers.
//!
//! Values are packed in chunks of 1024, each of `128 * bit_width` bytes in the transposed lane
//! order of [`fastlanes`]. A slice of the packed values starts at an offset in the first chunk.
//! Values wider than the bit width are stored as patches, which overwrite the unpacked values.
//!
//! ```text
//! [u8 bit_width][u8 pad][u16 offset][u32 len][u32 n_patches]
//! [n_patches * u32]  patch positions
//! [n_patches * 4]    patch values
//! [packed bytes...]  ceil((offset + len) / 1024) chunks of 128 * bit_width bytes
//! ```

use vstd::arithmetic::div_mod::lemma_div_denominator;
use vstd::arithmetic::div_mod::lemma_div_pos_is_pos;
use vstd::arithmetic::div_mod::lemma_fundamental_div_mod;
use vstd::arithmetic::div_mod::lemma_hoist_over_denominator;
use vstd::arithmetic::div_mod::lemma_mod_bound;
use vstd::arithmetic::power2::lemma2_to64;
use vstd::arithmetic::power2::lemma_pow2_adds;
use vstd::arithmetic::power2::lemma_pow2_pos;
use vstd::arithmetic::power2::lemma_pow2_unfold;
use vstd::arithmetic::power2::pow2;
use vstd::prelude::*;
use vstd::slice::slice_subrange;

use crate::abi::PType;
use crate::arrow::Decoded;
use crate::arrow::DecodedPrimitive;
use crate::error::GuestError;
use crate::error::GuestResult;
use crate::le::group_le_len;
use crate::le::lemma_u32_round_trip;
use crate::le::push_u32;
use crate::le::read_u32;
use crate::le::u32_at;
use crate::le::u32_le;

verus! {

/// The number of values in a chunk.
pub const CHUNK: usize = 1024;

/// The row of a value in its lane. A chunk has 32 lanes of 32 values each, and the values of a lane
/// are 32 apart, in blocks of 128 whose four parts are taken in the order first, third, second,
/// fourth.
pub open spec fn lane_row(i: int) -> int {
    let part = (i % 128) / 32;
    let order: int = if part == 1 {
        2
    } else if part == 2 {
        1
    } else {
        part
    };
    8 * order + i / 128
}

/// The 1024 values of a chunk, given words that hold `width` bits of each. Every 32nd word belongs
/// to the same lane, and the values of a lane follow each other in its words, row by row, from the
/// least significant bit on.
pub open spec fn unpacked(width: nat, words: Seq<u32>) -> Seq<u32> {
    Seq::new(
        1024,
        |i: int|
            {
                let start = lane_row(i) * width;
                let shift = start % 32;
                let at = 32 * (start / 32) + i % 32;
                let high: int = if shift + width > 32 {
                    words[at + 32] as int
                } else {
                    0
                };
                let bits = words[at] + high * 0x1_0000_0000;
                (bits / pow2(shift as nat) as int % pow2(width) as int) as u32
            },
    )
}

/// Calls [`fastlanes::BitPacking::unpack`] for values of `W` bits in `B` words. The contract claims
/// where in the words the bits of each of the 1024 values are.
#[verifier::external_body]
fn unpack_words<const W: usize, const B: usize>(words: &[u32]) -> (values: Vec<u32>)
    requires
        1 <= W <= 32,
        B == 32 * W,
        words@.len() == B,
    ensures
        values@ == unpacked(W as nat, words@),
{
    let mut packed = [0u32; B];
    packed.copy_from_slice(words);
    let mut values = [0u32; 1024];
    <u32 as fastlanes::BitPacking>::unpack::<W, B>(&packed, &mut values);
    values.to_vec()
}

/// The values of a chunk, given the words that hold `width` bits of each. Nothing is stored of
/// values of no bits, which are zero.
pub open spec fn chunk_values(width: nat, words: Seq<u32>) -> Seq<u32> {
    if width == 0 {
        Seq::new(1024, |i: int| 0u32)
    } else {
        unpacked(width, words)
    }
}

/// Unpack a chunk.
pub fn unpack_chunk(width: usize, words: &[u32]) -> (values: Vec<u32>)
    requires
        width <= 32,
        words@.len() == 32 * width,
    ensures
        values@.len() == 1024,
        values@ == chunk_values(width as nat, words@),
{
    match width {
        0 => {
            let values: Vec<u32> = vec![0u32; 1024];
            assert(values@ =~= chunk_values(0, words@));
            values
        },
        1 => unpack_words::<1, 32>(words),
        2 => unpack_words::<2, 64>(words),
        3 => unpack_words::<3, 96>(words),
        4 => unpack_words::<4, 128>(words),
        5 => unpack_words::<5, 160>(words),
        6 => unpack_words::<6, 192>(words),
        7 => unpack_words::<7, 224>(words),
        8 => unpack_words::<8, 256>(words),
        9 => unpack_words::<9, 288>(words),
        10 => unpack_words::<10, 320>(words),
        11 => unpack_words::<11, 352>(words),
        12 => unpack_words::<12, 384>(words),
        13 => unpack_words::<13, 416>(words),
        14 => unpack_words::<14, 448>(words),
        15 => unpack_words::<15, 480>(words),
        16 => unpack_words::<16, 512>(words),
        17 => unpack_words::<17, 544>(words),
        18 => unpack_words::<18, 576>(words),
        19 => unpack_words::<19, 608>(words),
        20 => unpack_words::<20, 640>(words),
        21 => unpack_words::<21, 672>(words),
        22 => unpack_words::<22, 704>(words),
        23 => unpack_words::<23, 736>(words),
        24 => unpack_words::<24, 768>(words),
        25 => unpack_words::<25, 800>(words),
        26 => unpack_words::<26, 832>(words),
        27 => unpack_words::<27, 864>(words),
        28 => unpack_words::<28, 896>(words),
        29 => unpack_words::<29, 928>(words),
        30 => unpack_words::<30, 960>(words),
        31 => unpack_words::<31, 992>(words),
        _ => unpack_words::<32, 1024>(words),
    }
}

/// The words of chunk `chunk`.
pub open spec fn chunk_words(packed: Seq<u8>, width: int, chunk: int) -> Seq<u32> {
    Seq::new((32 * width) as nat, |w: int| u32_at(packed, chunk * (128 * width) + 4 * w))
}

/// The packed value at a place counted from the start of the first chunk.
pub open spec fn packed_value(packed: Seq<u8>, width: int, place: int) -> u32 {
    chunk_values(width as nat, chunk_words(packed, width, place / 1024))[place % 1024]
}

/// The packed values from `offset` on.
pub open spec fn packed_values(packed: Seq<u8>, width: int, offset: int, len: nat) -> Seq<u32> {
    Seq::new(len, |i: int| packed_value(packed, width, offset + i))
}

/// The values once the first `n` patches overwrote them; `None` where a patch is out of bounds.
pub open spec fn patched(
    values: Seq<u32>,
    positions: Seq<u8>,
    replacements: Seq<u8>,
    n: nat,
) -> Option<Seq<u32>>
    decreases n,
{
    if n == 0 {
        Some(values)
    } else {
        match patched(values, positions, replacements, (n - 1) as nat) {
            None => None,
            Some(before) => {
                let position = u32_at(positions, (n - 1) * 4) as int;
                if position < values.len() {
                    Some(before.update(position, u32_at(replacements, (n - 1) * 4)))
                } else {
                    None
                }
            },
        }
    }
}

/// The bytes of values, in little-endian order.
pub open spec fn value_bytes(values: Seq<u32>) -> Seq<u8>
    decreases values.len(),
{
    if values.len() == 0 {
        seq![]
    } else {
        value_bytes(values.drop_last()) + u32_le(values.last())
    }
}

/// What a payload decodes to.
pub open spec fn decode_spec(input: Seq<u8>) -> Result<Seq<u32>, GuestError> {
    if input.len() < 12 {
        Err(GuestError::of("bitpacked header must be 12 bytes"))
    } else {
        let width = input[0] as int;
        let offset = input[2] + 256 * input[3];
        let len = u32_at(input, 4) as int;
        let n_patches = u32_at(input, 8) as int;
        let patches_end = 12 + n_patches * 8;
        let n_chunks = (offset + len + 1023) / 1024;
        if width > 32 {
            Err(GuestError::of("bitpacked bit width exceeds u32"))
        } else if offset >= 1024 {
            Err(GuestError::of("bitpacked offset must be within one chunk"))
        } else if input.len() < patches_end {
            Err(GuestError::of("bitpacked payload too short for patches"))
        } else if input.len() - patches_end < n_chunks * (128 * width) {
            Err(GuestError::of("bitpacked payload too short for packed chunks"))
        } else {
            match patched(
                packed_values(input.skip(patches_end), width, offset, len as nat),
                input.subrange(12, 12 + n_patches * 4),
                input.subrange(12 + n_patches * 4, patches_end),
                n_patches as nat,
            ) {
                Some(values) => Ok(values),
                None => Err(GuestError::of("bitpacked patch position out of bounds")),
            }
        }
    }
}

/// A patch out of bounds decides for all.
proof fn lemma_patched_stopped(
    values: Seq<u32>,
    positions: Seq<u8>,
    replacements: Seq<u8>,
    n: nat,
    m: nat,
)
    requires
        n <= m,
        patched(values, positions, replacements, n) is None,
    ensures
        patched(values, positions, replacements, m) is None,
    decreases m,
{
    if n < m {
        lemma_patched_stopped(values, positions, replacements, n, (m - 1) as nat);
    }
}

/// Patches overwrite values in place: there are as many values as before, and one that no patch
/// names keeps its value.
pub proof fn law_patched(
    values: Seq<u32>,
    positions: Seq<u8>,
    replacements: Seq<u8>,
    n: nat,
    i: int,
)
    requires
        0 <= i < values.len(),
        patched(values, positions, replacements, n) is Some,
    ensures
        patched(values, positions, replacements, n)->Some_0.len() == values.len(),
        (forall|k: int| 0 <= k < n ==> #[trigger] u32_at(positions, k * 4) != i) ==> patched(
            values,
            positions,
            replacements,
            n,
        )->Some_0[i] == values[i],
    decreases n,
{
    if n > 0 {
        law_patched(values, positions, replacements, (n - 1) as nat, i);
        if forall|k: int| 0 <= k < n ==> #[trigger] u32_at(positions, k * 4) != i {
            assert(u32_at(positions, (n - 1) * 4) != i);
        }
    }
}

/// The last patch of a value is the one that stays.
pub proof fn law_last_patch_stays(
    values: Seq<u32>,
    positions: Seq<u8>,
    replacements: Seq<u8>,
    n: nat,
    k: int,
)
    requires
        0 <= k < n,
        patched(values, positions, replacements, n) is Some,
        forall|j: int|
            k < j < n ==> #[trigger] u32_at(positions, j * 4) != u32_at(positions, k * 4),
    ensures
        u32_at(positions, k * 4) < values.len(),
        patched(values, positions, replacements, n)->Some_0[u32_at(positions, k * 4) as int]
            == u32_at(replacements, k * 4),
    decreases n,
{
    let i = u32_at(positions, k * 4) as int;
    if k < n - 1 {
        law_last_patch_stays(values, positions, replacements, (n - 1) as nat, k);
        law_patched(values, positions, replacements, (n - 1) as nat, i);
        assert(u32_at(positions, (n - 1) * 4) != i);
    } else {
        let before = patched(values, positions, replacements, (n - 1) as nat);
        if values.len() > 0 {
            law_patched(values, positions, replacements, (n - 1) as nat, 0);
        }
        assert(before is Some);
    }
}

/// Bit `b` of a number, counted from the least significant.
pub open spec fn bit_of(x: int, b: int) -> int {
    x / pow2(b as nat) as int % 2
}

/// The place in a chunk of the value in a row of a lane: rows are in blocks of eight, 128 places
/// apart, and the blocks start at places 0, 64, 32 and 96.
pub open spec fn place_of(row: int, lane: int) -> int {
    let block = row / 8;
    let start: int = if block == 0 {
        0
    } else if block == 1 {
        64
    } else if block == 2 {
        32
    } else {
        96
    };
    start + 128 * (row % 8) + lane
}

/// Whether words hold bit `b` of the value in a row of a lane: the words of a lane are 32 apart,
/// and hold the values of the lane one after the other, row by row.
pub open spec fn holds_bit(
    words: Seq<u32>,
    width: int,
    values: Seq<u32>,
    row: int,
    lane: int,
    b: int,
) -> bool {
    let at = row * width + b;
    bit_of(words[32 * (at / 32) + lane] as int, at % 32) == bit_of(
        values[place_of(row, lane)] as int,
        b,
    )
}

/// Whether words hold `width` bits of each of 1024 values that have no more bits.
pub open spec fn holds_chunk(words: Seq<u32>, width: int, values: Seq<u32>) -> bool {
    &&& values.len() == 1024
    &&& forall|i: int| 0 <= i < 1024 ==> #[trigger] values[i] < pow2(width as nat)
    &&& forall|row: int, lane: int, b: int|
        0 <= row < 32 && 0 <= lane < 32 && 0 <= b < width ==> #[trigger] holds_bit(
            words,
            width,
            values,
            row,
            lane,
            b,
        )
}

/// Numbers with the same bits are equal.
proof fn lemma_same_bits(x: int, y: int, width: nat)
    requires
        0 <= x < pow2(width),
        0 <= y < pow2(width),
        forall|b: int| 0 <= b < width ==> #[trigger] bit_of(x, b) == bit_of(y, b),
    ensures
        x == y,
    decreases width,
{
    if width == 0 {
        lemma2_to64();
    } else {
        let less = (width - 1) as nat;
        let m = pow2(less) as int;
        lemma_pow2_unfold(width);
        lemma_pow2_pos(less);
        assert(bit_of(x, less as int) == bit_of(y, less as int));
        lemma_fundamental_div_mod(x, m);
        lemma_fundamental_div_mod(y, m);
        lemma_top_bit(x, m);
        lemma_top_bit(y, m);
        let (u, v) = (x % m, y % m);
        assert forall|b: int| 0 <= b < less implies #[trigger] bit_of(u, b) == bit_of(v, b) by {
            lemma_low_bit(x, less, b);
            lemma_low_bit(y, less, b);
            assert(bit_of(x, b) == bit_of(y, b));
        }
        lemma_mod_bound(x, m);
        lemma_mod_bound(y, m);
        lemma_same_bits(u, v, less);
    }
}

/// A number below twice `m` has `m` in it once or not at all.
proof fn lemma_top_bit(x: int, m: int)
    requires
        0 <= x < 2 * m,
        0 < m,
    ensures
        0 <= x / m < 2,
        x / m % 2 == x / m,
{
    lemma_fundamental_div_mod(x, m);
    lemma_mod_bound(x, m);
    assert(0 <= x / m < 2) by (nonlinear_arith)
        requires
            x == m * (x / m) + x % m,
            0 <= x % m < m,
            0 <= x < 2 * m,
            0 < m,
    ;
}

/// The low bits of a number are its bits.
proof fn lemma_low_bit(x: int, width: nat, b: int)
    requires
        0 <= x,
        0 <= b < width,
    ensures
        bit_of(x % pow2(width) as int, b) == bit_of(x, b),
{
    let m = pow2(width) as int;
    let d = pow2(b as nat) as int;
    let rest = (width - b) as nat;
    lemma_pow2_pos(width);
    lemma_pow2_pos(b as nat);
    lemma_pow2_adds(b as nat, rest);
    lemma_pow2_unfold(rest);
    let half = pow2((rest - 1) as nat) as int;
    assert(m == d * (2 * half));
    let q = x / m;
    let r = x % m;
    lemma_fundamental_div_mod(x, m);
    assert(x == d * (2 * half * q) + r) by (nonlinear_arith)
        requires
            x == m * q + r,
            m == d * (2 * half),
    ;
    lemma_hoist_over_denominator(r, 2 * half * q, d as nat);
    assert((2 * half * q) * d == d * (2 * half * q)) by (nonlinear_arith);
    assert(x / d == r / d + 2 * half * q);
    let t = half * q;
    assert(2 * half * q == 2 * t) by (nonlinear_arith)
        requires
            t == half * q,
    ;
    assert((r / d + 2 * t) % 2 == (r / d) % 2);
}

/// The bits of a shifted number are its higher bits.
proof fn lemma_shifted_bit(x: int, shift: nat, b: nat)
    requires
        0 <= x,
    ensures
        bit_of(x / pow2(shift) as int, b as int) == bit_of(x, shift as int + b),
{
    lemma_pow2_pos(shift);
    lemma_pow2_pos(b);
    lemma_pow2_adds(shift, b);
    lemma_div_denominator(x, pow2(shift) as int, pow2(b) as int);
}

/// The bits of two words, one above the other, are those of the words.
proof fn lemma_pair_bit(low: u32, high: int, b: int)
    requires
        0 <= high,
        0 <= b,
    ensures
        b < 32 ==> bit_of(low + high * 0x1_0000_0000, b) == bit_of(low as int, b),
        b >= 32 ==> bit_of(low + high * 0x1_0000_0000, b) == bit_of(high, b - 32),
{
    lemma2_to64();
    let x = low + high * 0x1_0000_0000;
    if b < 32 {
        lemma_low_bit(x, 32, b);
        assert(x % 0x1_0000_0000 == low as int);
    } else {
        lemma_shifted_bit(x, 32, (b - 32) as nat);
        assert(x / 0x1_0000_0000 == high);
    }
}

/// Whatever values are packed into the words of a chunk, bit by bit, unpacking gives them back.
pub proof fn law_unpack_round_trip(words: Seq<u32>, width: nat, values: Seq<u32>)
    requires
        width <= 32,
        holds_chunk(words, width as int, values),
    ensures
        chunk_values(width, words) == values,
{
    let out = chunk_values(width, words);
    assert forall|i: int| 0 <= i < 1024 implies #[trigger] out[i] == values[i] by {
        assert(values[i] < pow2(width));
        if width == 0 {
            lemma2_to64();
        } else {
            lemma_unpacked_value(words, width, values, i);
        }
    }
    assert(out =~= values);
}

proof fn lemma_unpacked_value(words: Seq<u32>, width: nat, values: Seq<u32>, i: int)
    requires
        1 <= width <= 32,
        holds_chunk(words, width as int, values),
        0 <= i < 1024,
    ensures
        unpacked(width, words)[i] == values[i],
{
    let row = lane_row(i);
    let lane = i % 32;
    assert(0 <= row < 32);
    assert(place_of(row, lane) == i);
    let start = row * width;
    assert(0 <= start) by (nonlinear_arith)
        requires
            0 <= row,
            0 <= width,
            start == row * width,
    ;
    let shift = start % 32;
    let at = 32 * (start / 32) + lane;
    let high: int = if shift + width > 32 {
        words[at + 32] as int
    } else {
        0
    };
    let bits = words[at] + high * 0x1_0000_0000;
    let shifted = bits / pow2(shift as nat) as int;
    let value = shifted % pow2(width) as int;
    lemma_pow2_pos(width);
    lemma_pow2_pos(shift as nat);
    lemma_div_pos_is_pos(bits, pow2(shift as nat) as int);
    lemma_mod_bound(shifted, pow2(width) as int);
    assert forall|b: int| 0 <= b < width implies #[trigger] bit_of(value, b) == bit_of(
        values[i] as int,
        b,
    ) by {
        lemma_low_bit(shifted, width, b);
        lemma_shifted_bit(bits, shift as nat, b as nat);
        lemma_pair_bit(words[at], high, shift + b);
        assert(holds_bit(words, width as int, values, row, lane, b));
        let place = row * width as int + b;
        assert(place == start + b);
        if shift + b < 32 {
            assert(place / 32 == start / 32 && place % 32 == shift + b);
        } else {
            assert(place / 32 == start / 32 + 1 && place % 32 == shift + b - 32);
        }
    }
    assert(values[i] < pow2(width));
    lemma_same_bits(value, values[i] as int, width);
}

/// Whether a payload holds chunks of values, from `offset` on, and patches of them.
pub open spec fn is_payload(
    payload: Seq<u8>,
    width: int,
    offset: int,
    len: int,
    chunks: Seq<Seq<u32>>,
    patches: Seq<(u32, u32)>,
) -> bool {
    let packed = 12 + 8 * patches.len();
    &&& 0 <= width <= 32
    &&& 0 <= offset < 1024
    &&& 0 <= len
    &&& packed + 128 * width * chunks.len() <= payload.len()
    &&& 1024 * (chunks.len() - 1) < offset + len <= 1024 * chunks.len()
    &&& payload[0] == width
    &&& payload[2] == offset % 256
    &&& payload[3] == offset / 256
    &&& u32_at(payload, 4) == len
    &&& u32_at(payload, 8) == patches.len()
    &&& forall|k: int|
        0 <= k < patches.len() ==> {
            &&& u32_at(payload, 12 + 4 * k) == (#[trigger] patches[k]).0
            &&& u32_at(payload, 12 + 4 * patches.len() + 4 * k) == patches[k].1
        }
    &&& forall|c: int|
        0 <= c < chunks.len() ==> holds_chunk(
            Seq::new(
                (32 * width) as nat,
                |w: int| u32_at(payload, packed + 128 * width * c + 4 * w),
            ),
            width,
            #[trigger] chunks[c],
        )
}

/// A payload decodes to the values that were packed into it, from its offset on, but where a value
/// is patched, to its last patch. It is refused exactly if a patch is of no value.
pub proof fn law_decode_round_trip(
    payload: Seq<u8>,
    width: int,
    offset: int,
    len: int,
    chunks: Seq<Seq<u32>>,
    patches: Seq<(u32, u32)>,
)
    requires
        is_payload(payload, width, offset, len, chunks, patches),
    ensures
        (decode_spec(payload) is Ok) <==> (forall|k: int|
            0 <= k < patches.len() ==> (#[trigger] patches[k]).0 < len),
        decode_spec(payload) matches Ok(values) ==> {
            &&& values.len() == len
            &&& forall|i: int|
                0 <= i < len && (forall|k: int|
                    0 <= k < patches.len() ==> (#[trigger] patches[k]).0 != i)
                    ==> #[trigger] values[i] == chunks[(offset + i) / 1024][(offset + i) % 1024]
            &&& forall|k: int|
                0 <= k < patches.len() && (forall|j: int|
                    k < j < patches.len() ==> (#[trigger] patches[j]).0 != patches[k].0)
                    ==> values[(#[trigger] patches[k]).0 as int] == patches[k].1
        },
{
    let n = patches.len();
    let end = 12 + n as int * 8;
    let packed = payload.skip(end);
    let positions = payload.subrange(12, 12 + n as int * 4);
    let replacements = payload.subrange(12 + n as int * 4, end);
    let n_chunks = (offset + len + 1023) / 1024;
    assert(n_chunks == chunks.len());
    assert(n_chunks * (128 * width) == 128 * width * chunks.len()) by (nonlinear_arith)
        requires
            n_chunks == chunks.len(),
    ;
    let values = packed_values(packed, width, offset, len as nat);
    assert forall|k: int| 0 <= k < n implies #[trigger] u32_at(positions, k * 4) == patches[k].0
        && u32_at(replacements, k * 4) == patches[k].1 by {
        assert(patches[k].0 == u32_at(payload, 12 + 4 * k));
        reveal(u32_at);
    }
    assert forall|i: int| 0 <= i < len implies #[trigger] values[i] == chunks[(offset + i) / 1024][(
    offset + i) % 1024] by {
        lemma_payload_value(payload, width, offset, len, chunks, patches, offset + i);
    }
    assert(decode_spec(payload) == match patched(values, positions, replacements, n) {
        Some(values) => Ok(values),
        None => Err(GuestError::of("bitpacked patch position out of bounds")),
    });
    lemma_patched_some(values, positions, replacements, n);
    if forall|k: int| 0 <= k < n ==> (#[trigger] patches[k]).0 < len {
        assert forall|k: int| 0 <= k < n implies #[trigger] u32_at(positions, k * 4)
            < values.len() by {
            assert(patches[k].0 < len);
        }
    } else {
        let k = choose|k: int| 0 <= k < n && !((#[trigger] patches[k]).0 < len);
        assert(u32_at(positions, k * 4) >= values.len());
    }
    if let Some(out) = patched(values, positions, replacements, n) {
        lemma_patched_len(values, positions, replacements, n);
        assert forall|i: int|
            0 <= i < len && (forall|k: int| 0 <= k < n ==> (#[trigger] patches[k]).0 != i) implies
            #[trigger] out[i] == chunks[(offset + i) / 1024][(offset + i) % 1024] by {
            law_patched(values, positions, replacements, n, i);
            assert forall|k: int| 0 <= k < n implies #[trigger] u32_at(positions, k * 4) != i by {
                assert(patches[k].0 != i);
            }
        }
        assert forall|k: int|
            0 <= k < n && (forall|j: int| k < j < n ==> (#[trigger] patches[j]).0 != patches[k].0)
            implies out[(#[trigger] patches[k]).0 as int] == patches[k].1 by {
            assert(u32_at(positions, k * 4) == patches[k].0);
            assert forall|j: int| k < j < n implies #[trigger] u32_at(positions, j * 4) != u32_at(
                positions,
                k * 4,
            ) by {
                assert(patches[j].0 != patches[k].0);
            }
            law_last_patch_stays(values, positions, replacements, n, k);
        }
    }
}

/// The packed value at a place of a payload is the one of its chunk.
proof fn lemma_payload_value(
    payload: Seq<u8>,
    width: int,
    offset: int,
    len: int,
    chunks: Seq<Seq<u32>>,
    patches: Seq<(u32, u32)>,
    place: int,
)
    requires
        is_payload(payload, width, offset, len, chunks, patches),
        0 <= place < 1024 * chunks.len(),
    ensures
        packed_value(payload.skip(12 + patches.len() as int * 8), width, place) == chunks[place
            / 1024][place % 1024],
{
    let end = 12 + patches.len() as int * 8;
    let packed = payload.skip(end);
    let c = place / 1024;
    let words = chunk_words(packed, width, c);
    let stored = Seq::new(
        (32 * width) as nat,
        |w: int| u32_at(payload, 12 + 8 * patches.len() + 128 * width * c + 4 * w),
    );
    assert(holds_chunk(stored, width, chunks[c]));
    assert(128 * width * (c + 1) <= 128 * width * chunks.len()) by (nonlinear_arith)
        requires
            c + 1 <= chunks.len(),
            0 <= width,
    ;
    assert(128 * width * (c + 1) == 128 * width * c + 128 * width) by (nonlinear_arith);
    assert(c * (128 * width) == 128 * width * c) by (nonlinear_arith);
    assert(0 <= 128 * width * c) by (nonlinear_arith)
        requires
            0 <= c,
            0 <= width,
    ;
    assert forall|w: int| 0 <= w < 32 * width implies #[trigger] words[w] == stored[w] by {
        let o = c * (128 * width) + 4 * w;
        lemma_skipped_u32(payload, end, o);
        assert(words[w] == u32_at(packed, o));
        assert(stored[w] == u32_at(payload, end + o));
    }
    assert(words =~= stored);
    law_unpack_round_trip(words, width as nat, chunks[c]);
}

/// A number stands where it stood, counted from a later start.
proof fn lemma_skipped_u32(bytes: Seq<u8>, start: int, at: int)
    requires
        0 <= start,
        0 <= at,
        start + at + 4 <= bytes.len(),
    ensures
        u32_at(bytes.skip(start), at) == u32_at(bytes, start + at),
{
    reveal(u32_at);
}

/// Patches overwrite values as long as each is of a value.
proof fn lemma_patched_some(values: Seq<u32>, positions: Seq<u8>, replacements: Seq<u8>, n: nat)
    ensures
        (patched(values, positions, replacements, n) is Some) <==> (forall|k: int|
            0 <= k < n ==> #[trigger] u32_at(positions, k * 4) < values.len()),
    decreases n,
{
    if n > 0 {
        lemma_patched_some(values, positions, replacements, (n - 1) as nat);
        if patched(values, positions, replacements, n) is None {
            if patched(values, positions, replacements, (n - 1) as nat) is Some {
                assert(u32_at(positions, (n - 1) * 4) >= values.len());
            }
        }
    }
}

proof fn lemma_patched_len(values: Seq<u32>, positions: Seq<u8>, replacements: Seq<u8>, n: nat)
    requires
        patched(values, positions, replacements, n) is Some,
    ensures
        patched(values, positions, replacements, n)->Some_0.len() == values.len(),
    decreases n,
{
    if n > 0 {
        lemma_patched_len(values, positions, replacements, (n - 1) as nat);
    }
}

/// Value `i` stands at its place among the bytes of values.
pub proof fn law_value_bytes(values: Seq<u32>, i: int)
    requires
        0 <= i < values.len(),
    ensures
        value_bytes(values).len() == 4 * values.len(),
        u32_at(value_bytes(values), 4 * i) == values[i],
    decreases values.len(),
{
    broadcast use group_le_len;

    let front = values.drop_last();
    let bytes = value_bytes(values);
    let n = front.len() as int;
    if n > 0 {
        law_value_bytes(front, if i < n { i } else { 0 });
    } else {
        assert(value_bytes(front).len() == 0);
    }
    if i < n {
        reveal(u32_at);
        assert(u32_at(bytes, 4 * i) == u32_at(value_bytes(front), 4 * i));
    } else {
        assert(bytes.subrange(4 * n, 4 * n + 4) =~= u32_le(values.last()));
        lemma_u32_round_trip(bytes, 4 * n, values.last());
    }
}

/// How many values of the slice the first `n` chunks hold.
pub open spec fn values_in(offset: int, len: int, n: int) -> int {
    if n == 0 {
        0
    } else if n * 1024 <= offset + len {
        n * 1024 - offset
    } else {
        len
    }
}

/// Append the values of a chunk that are in the slice.
fn push_chunk(
    packed: &[u8],
    width: usize,
    offset: usize,
    len: u32,
    chunk: u64,
    values: &mut Vec<u32>,
)
    requires
        width <= 32,
        offset < 1024,
        chunk * 1024 < offset + len,
        (chunk + 1) * (128 * width) <= packed@.len(),
        old(values)@ == packed_values(
            packed@,
            width as int,
            offset as int,
            values_in(offset as int, len as int, chunk as int) as nat,
        ),
    ensures
        final(values)@ == packed_values(
            packed@,
            width as int,
            offset as int,
            values_in(offset as int, len as int, chunk + 1) as nat,
        ),
{
    let mut words: Vec<u32> = Vec::new();
    let size: usize = 128 * width;
    assert((chunk + 1) * size == chunk * size + size) by (nonlinear_arith);
    assert(0 <= chunk * size) by (nonlinear_arith);
    assert(packed.len() <= usize::MAX);
    let base: usize = (chunk * size as u64) as usize;
    let n_words: usize = 32 * width;
    let ghost wanted = chunk_words(packed@, width as int, chunk as int);
    while words.len() < n_words
        invariant
            n_words == 32 * width,
            width <= 32,
            base == chunk * size,
            size == 128 * width,
            base + size <= packed@.len(),
            wanted == chunk_words(packed@, width as int, chunk as int),
            words@ == wanted.take(words@.len() as int),
            words@.len() <= n_words,
        decreases n_words - words@.len(),
    {
        let w: usize = words.len();
        assert(packed.len() <= usize::MAX);
        words.push(read_u32(packed, base + w * 4));
        assert(wanted[w as int] == words@[w as int]);
        assert(words@ =~= wanted.take(w + 1));
    }
    assert(words@ =~= wanted);
    let chunk_of_values: Vec<u32> = unpack_chunk(width, words.as_slice());
    let start: u64 = chunk * 1024;
    let lo: usize = if chunk == 0 {
        offset
    } else {
        0
    };
    let left: u64 = offset as u64 + len as u64 - start;
    let hi: usize = if left < 1024 {
        left as usize
    } else {
        1024
    };
    let mut i: usize = lo;
    while i < hi
        invariant
            lo <= i <= hi,
            hi <= 1024,
            start == chunk * 1024,
            start + lo >= offset,
            chunk_of_values@ == chunk_values(
                width as nat,
                chunk_words(packed@, width as int, chunk as int),
            ),
            chunk_of_values@.len() == 1024,
            values@ == packed_values(
                packed@,
                width as int,
                offset as int,
                (start + i - offset) as nat,
            ),
        decreases hi - i,
    {
        values.push(chunk_of_values[i]);
        assert((start + i) / 1024 == chunk && (start + i) % 1024 == i as int);
        i = i + 1;
        assert(values@ =~= packed_values(
            packed@,
            width as int,
            offset as int,
            (start + i - offset) as nat,
        ));
    }
}

/// Unpack the values from `offset` on.
fn unpack_values(packed: &[u8], width: usize, offset: usize, len: u32) -> (values: Vec<u32>)
    requires
        width <= 32,
        offset < 1024,
        packed@.len() >= ((offset + len + 1023) / 1024) * (128 * width),
    ensures
        values@ == packed_values(packed@, width as int, offset as int, len as nat),
{
    let mut values: Vec<u32> = Vec::new();
    let total: u64 = offset as u64 + len as u64;
    let n_chunks: u64 = (total + 1023) / 1024;
    let mut chunk: u64 = 0;
    assert(values@ =~= packed_values(packed@, width as int, offset as int, 0));
    if len == 0 {
        return values;
    }
    while chunk < n_chunks
        invariant
            chunk <= n_chunks,
            width <= 32,
            offset < 1024,
            len > 0,
            total == offset + len,
            n_chunks == (total + 1023) / 1024,
            packed@.len() >= n_chunks * (128 * width),
            values@ == packed_values(
                packed@,
                width as int,
                offset as int,
                values_in(offset as int, len as int, chunk as int) as nat,
            ),
        decreases n_chunks - chunk,
    {
        assert((chunk + 1) * (128 * width) <= n_chunks * (128 * width)) by (nonlinear_arith)
            requires
                chunk + 1 <= n_chunks,
                0 <= width,
        ;
        push_chunk(packed, width, offset, len, chunk, &mut values);
        chunk = chunk + 1;
    }
    values
}

/// Decode a payload into its values.
pub fn decode_values(input: &[u8]) -> (result: GuestResult<Vec<u32>>)
    ensures
        match result {
            Ok(values) => decode_spec(input@) == Ok::<Seq<u32>, GuestError>(values@),
            Err(error) => decode_spec(input@) == Err::<Seq<u32>, GuestError>(error),
        },
{
    if input.len() < 12 {
        return Err(GuestError::new("bitpacked header must be 12 bytes"));
    }
    let width: usize = input[0] as usize;
    if width > 32 {
        return Err(GuestError::new("bitpacked bit width exceeds u32"));
    }
    let offset: usize = input[2] as usize + 256 * input[3] as usize;
    if offset >= CHUNK {
        return Err(GuestError::new("bitpacked offset must be within one chunk"));
    }
    let len: u32 = read_u32(input, 4);
    let n_patches: u32 = read_u32(input, 8);
    let patches_end: u64 = 12 + n_patches as u64 * 8;
    if (input.len() as u64) < patches_end {
        return Err(GuestError::new("bitpacked payload too short for patches"));
    }
    let patches_end: usize = patches_end as usize;
    let n_patches: usize = n_patches as usize;
    let positions: &[u8] = slice_subrange(input, 12, 12 + n_patches * 4);
    let replacements: &[u8] = slice_subrange(input, 12 + n_patches * 4, patches_end);
    let packed: &[u8] = slice_subrange(input, patches_end, input.len());
    assert(packed@ =~= input@.skip(patches_end as int));
    let n_chunks: u64 = (offset as u64 + len as u64 + 1023) / 1024;
    let size: u64 = 128 * width as u64;
    assert(n_chunks * size <= 0x40_0001 * 4096) by (nonlinear_arith)
        requires
            0 <= n_chunks <= 0x40_0001,
            0 <= size <= 4096,
    ;
    if (packed.len() as u64) < n_chunks * size {
        return Err(GuestError::new("bitpacked payload too short for packed chunks"));
    }
    unpack_and_patch(packed, positions, replacements, width, offset, len, n_patches)
}

/// Unpack the values from `offset` on and overwrite them by patches.
fn unpack_and_patch(
    packed: &[u8],
    positions: &[u8],
    replacements: &[u8],
    width: usize,
    offset: usize,
    len: u32,
    n_patches: usize,
) -> (result: GuestResult<Vec<u32>>)
    requires
        width <= 32,
        offset < 1024,
        packed@.len() >= ((offset + len + 1023) / 1024) * (128 * width),
        positions@.len() == 4 * n_patches,
        replacements@.len() == 4 * n_patches,
    ensures
        match patched(
            packed_values(packed@, width as int, offset as int, len as nat),
            positions@,
            replacements@,
            n_patches as nat,
        ) {
            Some(values) => result matches Ok(out) && out@ == values,
            None => result == Err::<Vec<u32>, _>(
                GuestError::of("bitpacked patch position out of bounds"),
            ),
        },
{
    let ghost values_spec = packed_values(packed@, width as int, offset as int, len as nat);
    let mut values: Vec<u32> = unpack_values(packed, width, offset, len);
    let mut k: usize = 0;
    while k < n_patches
        invariant
            k <= n_patches,
            positions@.len() == 4 * n_patches,
            replacements@.len() == 4 * n_patches,
            values_spec == packed_values(packed@, width as int, offset as int, len as nat),
            patched(values_spec, positions@, replacements@, k as nat) == Some(values@),
            values@.len() == values_spec.len(),
        decreases n_patches - k,
    {
        assert(positions.len() <= usize::MAX);
        let position: u32 = read_u32(positions, k * 4);
        if position as u64 >= values.len() as u64 {
            proof {
                lemma_patched_stopped(
                    values_spec,
                    positions@,
                    replacements@,
                    (k + 1) as nat,
                    n_patches as nat,
                );
            }
            return Err(GuestError::new("bitpacked patch position out of bounds"));
        }
        let replacement: u32 = read_u32(replacements, k * 4);
        values.set(position as usize, replacement);
        k = k + 1;
    }
    Ok(values)
}

/// Decode a payload into an array of 32-bit integers.
pub fn decode(input: &[u8]) -> (result: GuestResult<Decoded>)
    ensures
        match decode_spec(input@) {
            Ok(values) => result matches Ok(Decoded::Primitive(array)) && array.ptype == PType::I32
                && array.len == values.len() && array.values@ == value_bytes(values)
                && array.validity is None && !array.nullable,
            Err(error) => result == Err::<Decoded, _>(error),
        },
{
    let values: Vec<u32> = match decode_values(input) {
        Ok(values) => values,
        Err(error) => return Err(error),
    };
    let mut bytes: Vec<u8> = Vec::new();
    let mut i: usize = 0;
    while i < values.len()
        invariant
            i <= values@.len(),
            bytes@ == value_bytes(values@.take(i as int)),
        decreases values@.len() - i,
    {
        assert(values@.take(i + 1).drop_last() =~= values@.take(i as int));
        push_u32(&mut bytes, values[i]);
        i = i + 1;
    }
    assert(values@.take(i as int) =~= values@);
    Ok(
        Decoded::Primitive(
            DecodedPrimitive {
                ptype: PType::I32,
                len: values.len(),
                nullable: false,
                values: bytes,
                validity: None,
            },
        ),
    )
}

} // verus!
