//! LEB128 unsigned varints.

use vstd::prelude::*;

use crate::error::GuestError;
use crate::error::GuestResult;

verus! {

/// `128` to the power `k`.
pub open spec fn pow128(k: nat) -> nat
    decreases k,
{
    if k == 0 {
        1
    } else {
        128 * pow128((k - 1) as nat)
    }
}

/// One more than the largest `u64`.
pub open spec fn two64() -> nat {
    0x1_0000_0000_0000_0000
}

/// The largest number of bytes of a varint.
pub const MAX_VARINT: usize = 10;

/// Why bytes are not a varint.
#[derive(Debug, Clone, Copy, PartialEq, Eq, Structural)]
pub enum VarintError {
    /// The bytes end inside the varint.
    Truncated,
    /// The varint goes on beyond its tenth byte.
    Overflow,
}

/// The number whose 7-bit groups, least significant first, start at `offset`, and how many bytes
/// they take; `k` groups went before. An error where the bytes end or go on for too long.
pub open spec fn varint_groups(bytes: Seq<u8>, offset: int, k: nat) -> Result<
    (nat, nat),
    VarintError,
>
    decreases MAX_VARINT - k,
{
    if offset >= bytes.len() {
        Err(VarintError::Truncated)
    } else if bytes[offset] < 128 {
        Ok((bytes[offset] as nat, 1))
    } else if k + 1 >= MAX_VARINT {
        Err(VarintError::Overflow)
    } else {
        match varint_groups(bytes, offset + 1, k + 1) {
            Err(e) => Err(e),
            Ok((rest, n)) => Ok(((bytes[offset] as nat - 128 + 128 * rest) as nat, n + 1)),
        }
    }
}

/// The varint at `offset` and the number of bytes it takes. Bits beyond the 64th are dropped.
pub open spec fn raw_varint(bytes: Seq<u8>, offset: int) -> Result<(u64, nat), VarintError> {
    match varint_groups(bytes, offset, 0) {
        Err(e) => Err(e),
        Ok((value, n)) => Ok(((value % two64()) as u64, n)),
    }
}

/// The varint at `offset` of an encoded dtype, and the number of bytes it takes.
pub open spec fn varint(bytes: Seq<u8>, offset: int) -> Result<(u64, nat), GuestError> {
    match raw_varint(bytes, offset) {
        Err(VarintError::Truncated) => Err(GuestError::of("truncated dtype varint")),
        Err(VarintError::Overflow) => Err(GuestError::of("dtype varint overflow")),
        Ok(read) => Ok(read),
    }
}

/// The bytes of `value`, 7 bits each, least significant first, all but the last marked.
pub open spec fn varint_bytes(value: nat) -> Seq<u8>
    decreases value,
{
    if value < 128 {
        seq![value as u8]
    } else {
        seq![(value % 128 + 128) as u8] + varint_bytes(value / 128)
    }
}

proof fn lemma_pow128_values()
    ensures
        pow128(0) == 1,
        pow128(1) == 0x80,
        pow128(2) == 0x4000,
        pow128(3) == 0x20_0000,
        pow128(4) == 0x1000_0000,
        pow128(5) == 0x8_0000_0000,
        pow128(6) == 0x400_0000_0000,
        pow128(7) == 0x2_0000_0000_0000,
        pow128(8) == 0x100_0000_0000_0000,
        pow128(9) == 0x8000_0000_0000_0000,
        pow128(10) == 0x40_0000_0000_0000_0000,
{
    reveal_with_fuel(pow128, 11);
}

/// A varint that parses takes between one and ten bytes, all of them there.
pub proof fn lemma_varint_len(bytes: Seq<u8>, offset: int, k: nat)
    requires
        k < MAX_VARINT,
    ensures
        varint_groups(bytes, offset, k) matches Ok((_, n)) ==> 0 < n <= MAX_VARINT - k && offset
            + n <= bytes.len(),
    decreases MAX_VARINT - k,
{
    if k + 1 < MAX_VARINT {
        lemma_varint_len(bytes, offset + 1, k + 1);
    }
}

/// Reading written groups gives back the number, as long as it fits the groups that are left.
proof fn lemma_varint_groups_written(bytes: Seq<u8>, offset: int, value: nat, k: nat)
    requires
        0 <= offset,
        k < MAX_VARINT,
        value < pow128((MAX_VARINT - k) as nat),
        offset + varint_bytes(value).len() <= bytes.len(),
        bytes.subrange(offset, offset + varint_bytes(value).len()) == varint_bytes(value),
    ensures
        varint_groups(bytes, offset, k) == Ok::<_, VarintError>((value, varint_bytes(value).len())),
    decreases value,
{
    let written = varint_bytes(value);
    assert(bytes[offset] == bytes.subrange(offset, offset + written.len())[0]);
    lemma_pow128_values();
    if value >= 128 {
        let rest = varint_bytes(value / 128);
        assert(written[0] == (value % 128 + 128) as u8);
        assert(k + 1 < MAX_VARINT);
        assert(value / 128 < pow128((MAX_VARINT - (k + 1)) as nat)) by {
            assert(pow128((MAX_VARINT - k) as nat) == 128 * pow128(
                (MAX_VARINT - k - 1) as nat,
            ));
        }
        crate::le::lemma_piece(bytes, offset, written, 1, rest.len() as int);
        assert(written.subrange(1, 1 + rest.len() as int) =~= rest);
        lemma_varint_groups_written(bytes, offset + 1, value / 128, k + 1);
    }
}

/// A written varint reads back as the number it was written for.
pub proof fn law_varint_round_trip(bytes: Seq<u8>, offset: int, value: u64)
    requires
        0 <= offset,
        offset + varint_bytes(value as nat).len() <= bytes.len(),
        bytes.subrange(offset, offset + varint_bytes(value as nat).len()) == varint_bytes(
            value as nat,
        ),
    ensures
        raw_varint(bytes, offset) == Ok::<_, VarintError>(
            (value, varint_bytes(value as nat).len()),
        ),
        varint(bytes, offset) == Ok::<_, GuestError>((value, varint_bytes(value as nat).len())),
{
    lemma_pow128_values();
    lemma_varint_groups_written(bytes, offset, value as nat, 0);
    assert(value as nat % two64() == value) by {
        vstd::arithmetic::div_mod::lemma_small_mod(value as nat, two64());
    }
}

/// A written varint is never empty.
pub proof fn lemma_varint_bytes_len(value: nat)
    ensures
        0 < varint_bytes(value).len(),
{
}

/// Read a LEB128 unsigned varint of an encoded dtype, returning the value and the number of bytes
/// consumed.
pub fn read_varint(bytes: &[u8], offset: usize) -> (result: GuestResult<(u64, usize)>)
    ensures
        match result {
            Ok((value, n)) => {
                &&& varint(bytes@, offset as int) == Ok::<_, GuestError>((value, n as nat))
                &&& 0 < n <= MAX_VARINT
                &&& offset + n <= bytes@.len()
            },
            Err(e) => varint(bytes@, offset as int) == Err::<(u64, nat), _>(e),
        },
{
    match decode_varint(bytes, offset) {
        Ok(read) => Ok(read),
        Err(VarintError::Truncated) => Err(GuestError::new("truncated dtype varint")),
        Err(VarintError::Overflow) => Err(GuestError::new("dtype varint overflow")),
    }
}

/// Read a LEB128 unsigned varint, returning the value and the number of bytes consumed.
pub fn decode_varint(bytes: &[u8], offset: usize) -> (result: Result<(u64, usize), VarintError>)
    ensures
        match result {
            Ok((value, n)) => {
                &&& raw_varint(bytes@, offset as int) == Ok::<_, VarintError>((value, n as nat))
                &&& 0 < n <= MAX_VARINT
                &&& offset + n <= bytes@.len()
            },
            Err(e) => raw_varint(bytes@, offset as int) == Err::<(u64, nat), _>(e),
        },
{
    proof {
        lemma_varint_len(bytes@, offset as int, 0);
        lemma_pow128_values();
    }
    let mut value: u64 = 0;
    let mut scale: u64 = 1;
    let mut k: usize = 0;
    assert(bytes.len() <= usize::MAX);
    loop
        invariant
            k < MAX_VARINT,
            offset + k <= bytes@.len() || k == 0,
            bytes@.len() <= usize::MAX,
            scale == pow128(k as nat),
            value < pow128(k as nat),
            varint_groups(bytes@, offset as int, 0) == (match varint_groups(
                bytes@,
                offset + k,
                k as nat,
            ) {
                Err(e) => Err(e),
                Ok((rest, n)) => Ok((value as nat + pow128(k as nat) * rest, k as nat + n)),
            }),
        decreases MAX_VARINT - k,
    {
        proof {
            lemma_pow128_values();
            lemma_varint_len(bytes@, offset as int, 0);
        }
        if offset >= bytes.len() || k >= bytes.len() - offset {
            return Err(VarintError::Truncated);
        }
        let byte: u8 = bytes[offset + k];
        if byte < 128 {
            let ghost total = value as nat + pow128(k as nat) * (byte as nat);
            let group: u64 = if k + 1 < MAX_VARINT {
                byte as u64
            } else {
                byte as u64 % 2
            };
            assert(scale * group < two64() - value && total % two64() == value + scale * group)
                by {
                if k + 1 < MAX_VARINT {
                    assert(scale * byte <= scale * 127) by (nonlinear_arith)
                        requires
                            byte <= 127,
                            0 <= scale,
                    ;
                    assert(total == value + scale * byte);
                    vstd::arithmetic::div_mod::lemma_small_mod(total, two64());
                } else {
                    assert(k == 9);
                    assert(scale == 0x8000_0000_0000_0000);
                    let half = byte as nat / 2;
                    let low = byte as nat % 2;
                    assert(scale * byte == 0x8000_0000_0000_0000 * byte && scale * low
                        == 0x8000_0000_0000_0000 * low) by (nonlinear_arith)
                        requires
                            scale == 0x8000_0000_0000_0000,
                    ;
                    assert(byte == 2 * half + low);
                    assert(two64() * half == 0x1_0000_0000_0000_0000 * half) by (nonlinear_arith)
                        requires
                            two64() == 0x1_0000_0000_0000_0000,
                    ;
                    assert(total == value + scale * byte);
                    assert(total == two64() * half + (value + scale * low));
                    vstd::arithmetic::div_mod::lemma_mod_multiples_vanish(
                        half as int,
                        (value + scale * low) as int,
                        two64() as int,
                    );
                    vstd::arithmetic::div_mod::lemma_small_mod(
                        (value + scale * low) as nat,
                        two64(),
                    );
                }
            }
            assert(scale * group <= u64::MAX);
            let high: u64 = scale * group;
            return Ok((value + high, k + 1));
        }
        if k + 1 >= MAX_VARINT {
            return Err(VarintError::Overflow);
        }
        let group: u64 = byte as u64 - 128;
        proof {
            assert(scale * group <= scale * 127) by (nonlinear_arith)
                requires
                    group <= 127,
                    0 <= scale,
            ;
            assert(pow128((k + 1) as nat) == 128 * pow128(k as nat));
            if let Ok((rest, n)) = varint_groups(bytes@, offset + k + 1, (k + 1) as nat) {
                assert(pow128(k as nat) * ((group as nat) + 128 * rest) == scale * group + pow128(
                    (k + 1) as nat,
                ) * rest) by (nonlinear_arith)
                    requires
                        pow128((k + 1) as nat) == 128 * pow128(k as nat),
                        scale == pow128(k as nat),
                ;
            }
        }
        value = value + scale * group;
        scale = scale * 128;
        k = k + 1;
    }
}

/// Append a LEB128 unsigned varint.
pub fn write_varint(out: &mut Vec<u8>, value: u64)
    ensures
        final(out)@ == old(out)@ + varint_bytes(value as nat),
{
    let mut rest: u64 = value;
    let ghost mut written = Seq::<u8>::empty();
    while rest >= 128
        invariant
            out@ == old(out)@ + written,
            varint_bytes(value as nat) == written + varint_bytes(rest as nat),
        decreases rest,
    {
        let byte: u8 = (rest % 128) as u8 + 128;
        out.push(byte);
        proof {
            assert(written + (seq![byte] + varint_bytes((rest / 128) as nat)) =~= written.push(byte)
                + varint_bytes((rest / 128) as nat));
            written = written.push(byte);
            assert(out@ =~= old(out)@ + written);
        }
        rest = rest / 128;
    }
    out.push(rest as u8);
    assert(out@ =~= old(out)@ + varint_bytes(value as nat));
}

/// A varint is written in as few bytes as can hold it: every byte but the last is marked, and the
/// last is not zero unless it is the only one.
pub proof fn law_varint_is_minimal(value: nat, i: int)
    ensures
        varint_bytes(value).last() < 128,
        varint_bytes(value).len() > 1 ==> varint_bytes(value).last() != 0,
        0 <= i < varint_bytes(value).len() - 1 ==> varint_bytes(value)[i] >= 128,
    decreases value,
{
    if value >= 128 {
        law_varint_is_minimal(value / 128, i - 1);
        let rest = varint_bytes(value / 128);
        let bytes = varint_bytes(value);
        assert(rest.len() > 0) by {
            lemma_varint_bytes_len(value / 128);
        }
        assert(bytes.last() == rest.last());
        if rest.len() == 1 {
            assert(value / 128 < 128) by {
                if value / 128 >= 128 {
                    lemma_varint_bytes_len(value / 128 / 128);
                }
            }
        }
        if 0 < i < bytes.len() - 1 {
            assert(bytes[i] == rest[i - 1]);
        }
    }
}

} // verus!
