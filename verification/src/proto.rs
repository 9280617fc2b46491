//! A minimal protobuf wire-format reader, so kernels can parse protobuf-encoded metadata.
//!
//! Only what metadata needs: varint (wire type 0), length-delimited (wire type 2), and fixed
//! 32/64-bit fields. Nested messages arrive as [`Field::Bytes`] and are parsed with a nested
//! [`ProtoReader`].

use vstd::prelude::*;
use vstd::slice::slice_subrange;

use crate::error::GuestError;
use crate::error::GuestResult;
use crate::le::group_le_len;
use crate::le::lemma_split;
use crate::le::lemma_u32_round_trip;
use crate::le::lemma_u64_round_trip;
use crate::le::read_u32;
use crate::le::read_u64;
use crate::le::stands_at;
use crate::le::u32_at;
use crate::le::u32_le;
use crate::le::u64_at;
use crate::le::u64_le;
use crate::varint::decode_varint;
use crate::varint::law_varint_round_trip;
use crate::varint::raw_varint;
use crate::varint::varint_bytes;
use crate::varint::VarintError;
use crate::varint::MAX_VARINT;

verus! {

/// A decoded protobuf field value.
pub enum Field<'a> {
    /// Wire type 0.
    Varint(u64),
    /// Wire type 2 (nested messages, strings, packed fields).
    Bytes(&'a [u8]),
    /// Wire type 1 (fixed 64-bit), raw little-endian bits.
    Fixed64(u64),
    /// Wire type 5 (fixed 32-bit), raw little-endian bits.
    Fixed32(u32),
}

/// The content of a field value.
#[verifier::ext_equal]
pub enum FieldModel {
    /// Wire type 0.
    Varint(u64),
    /// Wire type 2.
    Bytes(Seq<u8>),
    /// Wire type 1.
    Fixed64(u64),
    /// Wire type 5.
    Fixed32(u32),
}

impl<'a> View for Field<'a> {
    type V = FieldModel;

    open spec fn view(&self) -> FieldModel {
        match self {
            Field::Varint(value) => FieldModel::Varint(*value),
            Field::Bytes(bytes) => FieldModel::Bytes(bytes@),
            Field::Fixed64(bits) => FieldModel::Fixed64(*bits),
            Field::Fixed32(bits) => FieldModel::Fixed32(*bits),
        }
    }
}

/// The outcome of reading one thing: what was read or the error, and where the reader stands.
pub type Read<T> = (Result<T, GuestError>, int);

/// The varint at `pos`. A reader that fails stands after the last byte it looked at.
pub open spec fn varint_spec(buf: Seq<u8>, pos: int) -> Read<u64> {
    match raw_varint(buf, pos) {
        Ok((value, n)) => (Ok(value), pos + n),
        Err(VarintError::Truncated) => (
            Err(GuestError::of("proto: truncated varint")),
            buf.len() as int,
        ),
        Err(VarintError::Overflow) => (
            Err(GuestError::of("proto: varint too long")),
            pos + MAX_VARINT,
        ),
    }
}

/// The `n` bytes at `pos`. A reader that fails has not moved.
pub open spec fn take_spec(buf: Seq<u8>, pos: int, n: int) -> Read<Seq<u8>> {
    if pos + n <= buf.len() {
        (Ok(buf.subrange(pos, pos + n)), pos + n)
    } else {
        (Err(GuestError::of("proto: truncated field")), pos)
    }
}

/// The value of wire type `wire` at `pos`.
pub open spec fn value_spec(buf: Seq<u8>, pos: int, wire: int) -> Read<FieldModel> {
    if wire == 0 {
        match varint_spec(buf, pos) {
            (Ok(value), end) => (Ok(FieldModel::Varint(value)), end),
            (Err(e), end) => (Err(e), end),
        }
    } else if wire == 1 {
        match take_spec(buf, pos, 8) {
            (Ok(_), end) => (Ok(FieldModel::Fixed64(u64_at(buf, pos))), end),
            (Err(e), end) => (Err(e), end),
        }
    } else if wire == 2 {
        match varint_spec(buf, pos) {
            (Err(e), end) => (Err(e), end),
            (Ok(len), start) => if len > usize::MAX {
                (Err(GuestError::of("proto: bad length")), start)
            } else {
                match take_spec(buf, start, len as int) {
                    (Ok(bytes), end) => (Ok(FieldModel::Bytes(bytes)), end),
                    (Err(e), end) => (Err(e), end),
                }
            },
        }
    } else if wire == 5 {
        match take_spec(buf, pos, 4) {
            (Ok(_), end) => (Ok(FieldModel::Fixed32(u32_at(buf, pos))), end),
            (Err(e), end) => (Err(e), end),
        }
    } else {
        (Err(GuestError::of("proto: unsupported wire type")), pos)
    }
}

/// The next field of the message at `pos`: its number and value, or `None` at the end.
pub open spec fn next_spec(buf: Seq<u8>, pos: int) -> Read<Option<(u32, FieldModel)>> {
    if pos >= buf.len() {
        (Ok(None), pos)
    } else {
        match varint_spec(buf, pos) {
            (Err(e), end) => (Err(e), end),
            (Ok(key), start) => if key / 8 > u32::MAX {
                (Err(GuestError::of("proto: bad field")), start)
            } else {
                match value_spec(buf, start, key as int % 8) {
                    (Err(e), end) => (Err(e), end),
                    (Ok(value), end) => (Ok(Some(((key / 8) as u32, value))), end),
                }
            },
        }
    }
}

/// Iterates the fields of one protobuf message.
pub struct ProtoReader<'a> {
    buf: &'a [u8],
    pos: usize,
}

impl<'a> ProtoReader<'a> {
    #[verifier::type_invariant]
    spec fn wf(self) -> bool {
        self.pos <= self.buf@.len()
    }

    /// The message.
    pub closed spec fn message(self) -> Seq<u8> {
        self.buf@
    }

    /// Where the reader stands.
    pub closed spec fn position(self) -> int {
        self.pos as int
    }

    /// Read fields from a serialized message.
    pub fn new(buf: &'a [u8]) -> (reader: Self)
        ensures
            reader.message() == buf@,
            reader.position() == 0,
    {
        ProtoReader { buf, pos: 0 }
    }

    fn varint(&mut self) -> (result: GuestResult<u64>)
        ensures
            final(self).message() == old(self).message(),
            (result, final(self).position()) == varint_spec(
                old(self).message(),
                old(self).position(),
            ),
    {
        proof {
            use_type_invariant(&*self);
            lemma_varint_overflow(self.buf@, self.pos as int, 0);
        }
        assert(self.buf.len() <= usize::MAX);
        match decode_varint(self.buf, self.pos) {
            Ok((value, n)) => {
                self.pos = self.pos + n;
                Ok(value)
            },
            Err(VarintError::Truncated) => {
                self.pos = self.buf.len();
                Err(GuestError::new("proto: truncated varint"))
            },
            Err(VarintError::Overflow) => {
                self.pos = self.pos + MAX_VARINT;
                Err(GuestError::new("proto: varint too long"))
            },
        }
    }

    fn take(&mut self, n: usize) -> (result: GuestResult<&'a [u8]>)
        ensures
            final(self).message() == old(self).message(),
            match result {
                Ok(bytes) => take_spec(old(self).message(), old(self).position(), n as int) == (
                    Ok::<_, GuestError>(bytes@),
                    final(self).position(),
                ),
                Err(e) => take_spec(old(self).message(), old(self).position(), n as int) == (
                    Err::<Seq<u8>, _>(e),
                    final(self).position(),
                ),
            },
    {
        proof {
            use_type_invariant(&*self);
        }
        if n > self.buf.len() - self.pos {
            return Err(GuestError::new("proto: truncated field"));
        }
        let end: usize = self.pos + n;
        let bytes: &'a [u8] = slice_subrange(self.buf, self.pos, end);
        self.pos = end;
        Ok(bytes)
    }

    /// Return the next `(field_number, value)`, or `None` at end of message.
    pub fn next(&mut self) -> (result: GuestResult<Option<(u32, Field<'a>)>>)
        ensures
            final(self).message() == old(self).message(),
            match result {
                Ok(None) => next_spec(old(self).message(), old(self).position()) == (
                    Ok::<Option<(u32, FieldModel)>, GuestError>(None),
                    final(self).position(),
                ),
                Ok(Some((number, value))) => next_spec(old(self).message(), old(self).position())
                    == (Ok::<_, GuestError>(Some((number, value@))), final(self).position()),
                Err(e) => next_spec(old(self).message(), old(self).position()) == (
                    Err::<Option<(u32, FieldModel)>, _>(e),
                    final(self).position(),
                ),
            },
    {
        proof {
            use_type_invariant(&*self);
        }
        if self.pos >= self.buf.len() {
            return Ok(None);
        }
        let key: u64 = match self.varint() {
            Ok(key) => key,
            Err(e) => {
                return Err(e);
            },
        };
        if key / 8 > u32::MAX as u64 {
            return Err(GuestError::new("proto: bad field"));
        }
        let number: u32 = (key / 8) as u32;
        let wire: u64 = key % 8;
        let ghost at = self.position();
        let value: Field<'a> = if wire == 0 {
            match self.varint() {
                Ok(value) => Field::Varint(value),
                Err(e) => {
                    return Err(e);
                },
            }
        } else if wire == 1 {
            match self.take(8) {
                Ok(bytes) => {
                    let bits: u64 = read_u64(bytes, 0);
                    proof {
                        lemma_u64_sub(self.message(), at);
                    }
                    Field::Fixed64(bits)
                },
                Err(e) => {
                    return Err(e);
                },
            }
        } else if wire == 2 {
            let len: u64 = match self.varint() {
                Ok(len) => len,
                Err(e) => {
                    return Err(e);
                },
            };
            if len > usize::MAX as u64 {
                return Err(GuestError::new("proto: bad length"));
            }
            match self.take(len as usize) {
                Ok(bytes) => Field::Bytes(bytes),
                Err(e) => {
                    return Err(e);
                },
            }
        } else if wire == 5 {
            match self.take(4) {
                Ok(bytes) => {
                    let bits: u32 = read_u32(bytes, 0);
                    proof {
                        lemma_u32_sub(self.message(), at);
                    }
                    Field::Fixed32(bits)
                },
                Err(e) => {
                    return Err(e);
                },
            }
        } else {
            return Err(GuestError::new("proto: unsupported wire type"));
        };
        Ok(Some((number, value)))
    }
}

/// A varint that is too long has ten bytes.
proof fn lemma_varint_overflow(bytes: Seq<u8>, offset: int, k: nat)
    requires
        k < MAX_VARINT,
    ensures
        crate::varint::varint_groups(bytes, offset, k) == Err::<(nat, nat), _>(
            VarintError::Overflow,
        ) ==> offset + MAX_VARINT - k <= bytes.len(),
    decreases MAX_VARINT - k,
{
    if k + 1 < MAX_VARINT {
        lemma_varint_overflow(bytes, offset + 1, k + 1);
    }
}

proof fn lemma_u32_sub(bytes: Seq<u8>, at: int)
    requires
        0 <= at,
        at + 4 <= bytes.len(),
    ensures
        u32_at(bytes.subrange(at, at + 4), 0) == u32_at(bytes, at),
{
    reveal(u32_at);
}

proof fn lemma_u64_sub(bytes: Seq<u8>, at: int)
    requires
        0 <= at,
        at + 8 <= bytes.len(),
    ensures
        u64_at(bytes.subrange(at, at + 8), 0) == u64_at(bytes, at),
{
    reveal(u32_at);
    reveal(u64_at);
}

impl FieldModel {
    /// The wire type.
    pub open spec fn wire(self) -> nat {
        match self {
            FieldModel::Varint(_) => 0,
            FieldModel::Fixed64(_) => 1,
            FieldModel::Bytes(_) => 2,
            FieldModel::Fixed32(_) => 5,
        }
    }

    /// The encoded value.
    pub open spec fn payload(self) -> Seq<u8> {
        match self {
            FieldModel::Varint(value) => varint_bytes(value as nat),
            FieldModel::Fixed64(bits) => u64_le(bits),
            FieldModel::Bytes(bytes) => varint_bytes(bytes.len()) + bytes,
            FieldModel::Fixed32(bits) => u32_le(bits),
        }
    }
}

/// The encoded field: its key, then its value.
pub open spec fn field_bytes(number: u32, value: FieldModel) -> Seq<u8> {
    varint_bytes((8 * number + value.wire()) as nat) + value.payload()
}

/// A field written in the wire format is read back, whatever follows it, and the reader then
/// stands right after it.
pub proof fn law_next_reads_field(buf: Seq<u8>, pos: int, number: u32, value: FieldModel)
    requires
        stands_at(buf, pos, field_bytes(number, value)),
        buf.len() <= usize::MAX,
    ensures
        next_spec(buf, pos) == (
            Ok::<_, GuestError>(Some((number, value))),
            pos + field_bytes(number, value).len(),
        ),
{
    broadcast use group_le_len;

    let key = (8 * number + value.wire()) as u64;
    lemma_split(buf, pos, varint_bytes(key as nat), value.payload());
    law_varint_round_trip(buf, pos, key);
    crate::varint::lemma_varint_bytes_len(key as nat);
    let at = pos + varint_bytes(key as nat).len();
    match value {
        FieldModel::Varint(v) => {
            law_varint_round_trip(buf, at, v);
        },
        FieldModel::Fixed64(bits) => {
            lemma_u64_round_trip(buf, at, bits);
        },
        FieldModel::Bytes(bytes) => {
            lemma_split(buf, at, varint_bytes(bytes.len()), bytes);
            law_varint_round_trip(buf, at, bytes.len() as u64);
        },
        FieldModel::Fixed32(bits) => {
            lemma_u32_round_trip(buf, at, bits);
        },
    }
}

/// A reader moves forward, and never beyond the message: a field that does not end inside the message
/// is an error.
pub proof fn law_next_stays_inside(buf: Seq<u8>, pos: int)
    requires
        0 <= pos <= buf.len(),
    ensures
        next_spec(buf, pos).0 matches Ok(None) ==> pos == buf.len(),
        next_spec(buf, pos).0 matches Ok(Some(_)) ==> pos < next_spec(buf, pos).1 <= buf.len(),
{
    if pos < buf.len() {
        if let (Ok(key), start) = varint_spec(buf, pos) {
            crate::varint::lemma_varint_len(buf, pos, 0);
            crate::varint::lemma_varint_len(buf, start, 0);
        }
    }
}

} // verus!
