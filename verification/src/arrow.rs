//! Building and reading Arrow C Data Interface structs in the guest's own linear memory.
//!
//! A kernel that answers with Arrow C structs returns its result as a [`Decoded`] and the structs
//! are laid out for it ([`write`]); host-decoded child arrays arrive as structs that are
//! read back ([`read_child`]). The layouts are plain bytes (see [`crate::abi`]).

use vstd::prelude::*;
use vstd::utf8::valid_utf8;

use crate::abi::arrow_array;
use crate::abi::arrow_schema;
use crate::abi::decode_result;
use crate::abi::PType;
use crate::data::le_value;
use crate::error::GuestError;
use crate::error::GuestResult;
use crate::frame::bitmap_len;
use crate::frame::lemma_kept_in_trans;
use crate::frame::lemma_load_kept;
use crate::host::alloc_bytes;
use crate::host::alloc_bytes_spec;
use crate::host::lemma_alloc_bytes;
use crate::le::group_le_len;
use crate::le::lemma_split;
use crate::le::lemma_u32_round_trip;
use crate::le::lemma_u64_round_trip;
use crate::le::push_u32;
use crate::le::push_u64;
use crate::le::read_u32;
use crate::le::read_u64;
use crate::le::stands_at;
use crate::le::u32_at;
use crate::le::u32_le;
use crate::le::u64_at;
use crate::le::u64_le;
use crate::runtime::LinearMemory;
use crate::runtime::Memory;

verus! {

broadcast use group_le_len;

/// What a kernel produces for a node.
///
/// Encodings that compute new element values must materialize bytes. Encodings that merely
/// re-arrange an existing child return [`Decoded::Take`] instead and let the host gather.
pub enum Decoded {
    /// A materialized primitive array.
    Primitive(DecodedPrimitive),
    /// A materialized utf8 string array.
    Utf8(DecodedUtf8),
    /// The output is a referenced child gathered by guest-computed indices.
    Take(DecodedTake),
}

/// The output is child `values_slot`, gathered by `indices`.
pub struct DecodedTake {
    /// The serialized child slot to gather from.
    pub values_slot: u16,
    /// One unsigned index per output element, each `< values.len()`.
    pub indices: DecodedPrimitive,
}

/// A decoded primitive array. The values buffer must hold an entry at every position; null
/// positions may contain any bytes. `validity` is an LSB-first bitmap (`ceil(len / 8)` bytes,
/// 1 = valid); it may be `None` even when `nullable` (meaning all-valid).
pub struct DecodedPrimitive {
    /// Element type.
    pub ptype: PType,
    /// Logical element count.
    pub len: usize,
    /// Whether the output dtype is nullable.
    pub nullable: bool,
    /// Little-endian values, `len * ptype.byte_width()` bytes.
    pub values: Vec<u8>,
    /// Optional validity bitmap.
    pub validity: Option<Vec<u8>>,
}

/// A decoded utf8 string array in Arrow's variable-size layout: `len + 1` byte offsets into a
/// concatenated values buffer, so string `i` is `values[offsets[i]..offsets[i + 1]]`.
pub struct DecodedUtf8 {
    /// Logical element count.
    pub len: usize,
    /// Whether the output dtype is nullable.
    pub nullable: bool,
    /// `len + 1` monotonically non-decreasing byte offsets into `values`.
    pub offsets: Vec<i32>,
    /// Concatenated utf8 bytes.
    pub values: Vec<u8>,
    /// Optional validity bitmap (LSB-first, 1 = valid).
    pub validity: Option<Vec<u8>>,
}

/// `n` zero bytes.
pub open spec fn zeros(n: nat) -> Seq<u8> {
    Seq::new(n, |i: int| 0u8)
}

/// The bitmap of an optional validity.
pub open spec fn validity_bits(validity: Option<Vec<u8>>) -> Option<Seq<u8>> {
    match validity {
        Some(bits) => Some(bits@),
        None => None,
    }
}

/// `struct ArrowSchema`.
pub open spec fn schema_bytes(format_ptr: u32, nullable: bool) -> Seq<u8> {
    u32_le(format_ptr) + zeros(12) + u64_le(
        if nullable {
            arrow_schema::FLAG_NULLABLE
        } else {
            0
        },
    ) + zeros(24)
}

/// `struct ArrowArray`. The null count is -1, for "not computed", when there is a bitmap.
pub open spec fn array_bytes(len: u64, has_bitmap: bool, n_buffers: u64, buffers_ptr: u32) -> Seq<
    u8,
> {
    u64_le(len) + u64_le(
        if has_bitmap {
            u64::MAX
        } else {
            0
        },
    ) + zeros(8) + u64_le(n_buffers) + zeros(8) + u32_le(buffers_ptr) + zeros(20)
}

/// The pointers of a buffer table, one after the other.
pub open spec fn pointer_table(ptrs: Seq<u32>) -> Seq<u8>
    decreases ptrs.len(),
{
    if ptrs.len() == 0 {
        Seq::empty()
    } else {
        pointer_table(ptrs.drop_last()) + u32_le(ptrs.last())
    }
}

/// The structs of an array whose buffers are already in memory: the addresses of the array and of
/// the schema, and the memory after.
pub open spec fn structs_spec(
    memory: Memory,
    format: u8,
    len: u64,
    nullable: bool,
    ptrs: Seq<u32>,
) -> Option<((u32, u32), Memory)> {
    match alloc_bytes_spec(memory, seq![format, 0u8]) {
        None => None,
        Some((format_ptr, m1)) => match alloc_bytes_spec(m1, pointer_table(ptrs)) {
            None => None,
            Some((buffers_ptr, m2)) => match alloc_bytes_spec(
                m2,
                schema_bytes(format_ptr, nullable),
            ) {
                None => None,
                Some((schema_ptr, m3)) => match alloc_bytes_spec(
                    m3,
                    array_bytes(
                        len,
                        ptrs.len() > 0 && ptrs[0] != 0,
                        ptrs.len() as u64,
                        buffers_ptr,
                    ),
                ) {
                    None => None,
                    Some((array_ptr, m4)) => Some(((array_ptr, schema_ptr), m4)),
                },
            },
        },
    }
}

/// The pointer of an optional bitmap: 0 when there is none.
pub open spec fn place_bitmap(memory: Memory, bits: Option<Seq<u8>>) -> Option<(u32, Memory)> {
    match bits {
        Some(bits) => alloc_bytes_spec(memory, bits),
        None => Some((0u32, memory)),
    }
}

/// The structs of a primitive array: its values, then its bitmap, then the structs.
pub open spec fn primitive_structs_spec(memory: Memory, array: DecodedPrimitive) -> Option<
    ((u32, u32), Memory),
> {
    match alloc_bytes_spec(memory, array.values@) {
        None => None,
        Some((values_ptr, m1)) => match place_bitmap(m1, validity_bits(array.validity)) {
            None => None,
            Some((validity_ptr, m2)) => structs_spec(
                m2,
                array.ptype.format(),
                array.len as u64,
                array.nullable,
                seq![validity_ptr, values_ptr],
            ),
        },
    }
}

/// The little-endian bytes of the offsets, one after the other.
pub open spec fn offset_bytes(offsets: Seq<i32>) -> Seq<u8>
    decreases offsets.len(),
{
    if offsets.len() == 0 {
        Seq::empty()
    } else {
        offset_bytes(offsets.drop_last()) + u32_le(offsets.last() as u32)
    }
}

/// The structs of a utf8 array: its offsets, its values, its bitmap, then the structs.
pub open spec fn utf8_structs_spec(memory: Memory, array: DecodedUtf8) -> Option<
    ((u32, u32), Memory),
> {
    match alloc_bytes_spec(memory, offset_bytes(array.offsets@)) {
        None => None,
        Some((offsets_ptr, m1)) => match alloc_bytes_spec(m1, array.values@) {
            None => None,
            Some((values_ptr, m2)) => match place_bitmap(m2, validity_bits(array.validity)) {
                None => None,
                Some((validity_ptr, m3)) => structs_spec(
                    m3,
                    117,
                    array.len as u64,
                    array.nullable,
                    seq![validity_ptr, offsets_ptr, values_ptr],
                ),
            },
        },
    }
}

/// The address of the result frame of a kernel's output and the memory holding it.
pub open spec fn result_spec(memory: Memory, decoded: Decoded) -> Option<(u32, Memory)> {
    match decoded {
        Decoded::Take(take) => match primitive_structs_spec(memory, take.indices) {
            None => None,
            Some(((array_ptr, schema_ptr), after)) => alloc_bytes_spec(
                after,
                u32_le(decode_result::TAG_TAKE) + u32_le(take.values_slot as u32) + u32_le(
                    array_ptr,
                ) + u32_le(schema_ptr),
            ),
        },
        Decoded::Primitive(array) => materialized_spec(primitive_structs_spec(memory, array)),
        Decoded::Utf8(array) => materialized_spec(utf8_structs_spec(memory, array)),
    }
}

/// The result frame over the structs of a materialized array.
pub open spec fn materialized_spec(structs: Option<((u32, u32), Memory)>) -> Option<(u32, Memory)> {
    match structs {
        None => None,
        Some(((array_ptr, schema_ptr), after)) => alloc_bytes_spec(
            after,
            u32_le(decode_result::TAG_MATERIALIZED) + u32_le(array_ptr) + u32_le(schema_ptr),
        ),
    }
}

/// Write a [`Decoded`] as a `vx_decode` result frame in linear memory, returning its address.
/// `None` when the memory is exhausted.
pub fn write(memory: &mut LinearMemory, decoded: &Decoded) -> (ptr: Option<i32>)
    requires
        old(memory)@.wf(),
    ensures
        final(memory)@.wf(),
        match result_spec(old(memory)@, *decoded) {
            Some((address, after)) => ptr == Some(address as i32) && final(memory)@ == after,
            None => ptr is None,
        },
{
    let mut frame: Vec<u8> = Vec::new();
    match decoded {
        Decoded::Take(take) => {
            let (array_ptr, schema_ptr): (u32, u32) = match write_primitive_structs(
                memory,
                &take.indices,
            ) {
                Some(pair) => pair,
                None => {
                    return None;
                },
            };
            push_u32(&mut frame, decode_result::TAG_TAKE);
            push_u32(&mut frame, take.values_slot as u32);
            push_u32(&mut frame, array_ptr);
            push_u32(&mut frame, schema_ptr);
            assert(frame@ =~= u32_le(decode_result::TAG_TAKE) + u32_le(take.values_slot as u32)
                + u32_le(array_ptr) + u32_le(schema_ptr));
        },
        Decoded::Primitive(_) | Decoded::Utf8(_) => {
            let (array_ptr, schema_ptr): (u32, u32) = match write_materialized(memory, decoded) {
                Some(pair) => pair,
                None => {
                    return None;
                },
            };
            push_u32(&mut frame, decode_result::TAG_MATERIALIZED);
            push_u32(&mut frame, array_ptr);
            push_u32(&mut frame, schema_ptr);
            assert(frame@ =~= u32_le(decode_result::TAG_MATERIALIZED) + u32_le(array_ptr) + u32_le(
                schema_ptr,
            ));
        },
    }
    match alloc_bytes(memory, frame.as_slice()) {
        Some(address) => Some(address as i32),
        None => None,
    }
}

/// Place an optional bitmap in memory.
fn place_validity(memory: &mut LinearMemory, validity: &Option<Vec<u8>>) -> (ptr: Option<u32>)
    requires
        old(memory)@.wf(),
    ensures
        final(memory)@.wf(),
        match place_bitmap(old(memory)@, validity_bits(*validity)) {
            Some((address, after)) => ptr == Some(address) && final(memory)@ == after,
            None => ptr is None,
        },
{
    match validity {
        Some(bits) => alloc_bytes(memory, bits.as_slice()),
        None => Some(0),
    }
}

/// Lay out the Arrow C structs for a materialized primitive, returning `(array_ptr, schema_ptr)`.
fn write_primitive_structs(memory: &mut LinearMemory, primitive: &DecodedPrimitive) -> (pair:
    Option<(u32, u32)>)
    requires
        old(memory)@.wf(),
    ensures
        final(memory)@.wf(),
        match primitive_structs_spec(old(memory)@, *primitive) {
            Some((ptrs, after)) => pair == Some(ptrs) && final(memory)@ == after,
            None => pair is None,
        },
{
    let values_ptr: u32 = match alloc_bytes(memory, primitive.values.as_slice()) {
        Some(ptr) => ptr,
        None => {
            return None;
        },
    };
    let validity_ptr: u32 = match place_validity(memory, &primitive.validity) {
        Some(ptr) => ptr,
        None => {
            return None;
        },
    };
    let mut ptrs: Vec<u32> = Vec::new();
    ptrs.push(validity_ptr);
    ptrs.push(values_ptr);
    assert(ptrs@ =~= seq![validity_ptr, values_ptr]);
    write_structs(
        memory,
        primitive.ptype.format_code(),
        primitive.len,
        primitive.nullable,
        ptrs.as_slice(),
    )
}

/// Lay out the Arrow C structs for a materialized output, returning `(array_ptr, schema_ptr)`.
fn write_materialized(memory: &mut LinearMemory, decoded: &Decoded) -> (pair: Option<(u32, u32)>)
    requires
        old(memory)@.wf(),
    ensures
        final(memory)@.wf(),
        match *decoded {
            Decoded::Primitive(array) => match primitive_structs_spec(old(memory)@, array) {
                Some((ptrs, after)) => pair == Some(ptrs) && final(memory)@ == after,
                None => pair is None,
            },
            Decoded::Utf8(array) => match utf8_structs_spec(old(memory)@, array) {
                Some((ptrs, after)) => pair == Some(ptrs) && final(memory)@ == after,
                None => pair is None,
            },
            Decoded::Take(_) => pair == Some((0u32, 0u32)) && final(memory)@ == old(memory)@,
        },
{
    match decoded {
        Decoded::Primitive(primitive) => write_primitive_structs(memory, primitive),
        Decoded::Utf8(utf8) => write_utf8_structs(memory, utf8),
        // `write` routes `Take` before calling this.
        Decoded::Take(_) => Some((0, 0)),
    }
}

/// Lay out the Arrow C structs for a utf8 array, returning `(array_ptr, schema_ptr)`.
fn write_utf8_structs(memory: &mut LinearMemory, utf8: &DecodedUtf8) -> (pair: Option<(u32, u32)>)
    requires
        old(memory)@.wf(),
    ensures
        final(memory)@.wf(),
        match utf8_structs_spec(old(memory)@, *utf8) {
            Some((ptrs, after)) => pair == Some(ptrs) && final(memory)@ == after,
            None => pair is None,
        },
{
    let bytes: Vec<u8> = encode_offsets(utf8.offsets.as_slice());
    let offsets_ptr: u32 = match alloc_bytes(memory, bytes.as_slice()) {
        Some(ptr) => ptr,
        None => {
            return None;
        },
    };
    let values_ptr: u32 = match alloc_bytes(memory, utf8.values.as_slice()) {
        Some(ptr) => ptr,
        None => {
            return None;
        },
    };
    let validity_ptr: u32 = match place_validity(memory, &utf8.validity) {
        Some(ptr) => ptr,
        None => {
            return None;
        },
    };
    let mut ptrs: Vec<u32> = Vec::new();
    ptrs.push(validity_ptr);
    ptrs.push(offsets_ptr);
    ptrs.push(values_ptr);
    assert(ptrs@ =~= seq![validity_ptr, offsets_ptr, values_ptr]);
    write_structs(memory, 117, utf8.len, utf8.nullable, ptrs.as_slice())
}

/// The little-endian bytes of the offsets.
fn encode_offsets(offsets: &[i32]) -> (bytes: Vec<u8>)
    ensures
        bytes@ == offset_bytes(offsets@),
{
    let mut bytes: Vec<u8> = Vec::new();
    let mut i: usize = 0;
    assert(offsets@.take(0) =~= Seq::empty());
    while i < offsets.len()
        invariant
            i <= offsets@.len(),
            bytes@ == offset_bytes(offsets@.take(i as int)),
        decreases offsets@.len() - i,
    {
        push_u32(&mut bytes, offsets[i] as u32);
        assert(offsets@.take(i + 1).drop_last() =~= offsets@.take(i as int));
        i = i + 1;
    }
    assert(offsets@.take(i as int) =~= offsets@);
    bytes
}

/// Append `n` zero bytes.
fn push_zeros(out: &mut Vec<u8>, n: usize)
    ensures
        final(out)@ == old(out)@ + zeros(n as nat),
{
    let mut i: usize = 0;
    assert(out@ =~= old(out)@ + zeros(0));
    while i < n
        invariant
            i <= n,
            out@ == old(out)@ + zeros(i as nat),
        decreases n - i,
    {
        out.push(0);
        i = i + 1;
        assert(out@ =~= old(out)@ + zeros(i as nat));
    }
}

/// Lay out the `ArrowSchema`/`ArrowArray` structs (plus the buffer-pointer table) for an array
/// whose buffers are already in linear memory, returning `(array_ptr, schema_ptr)`. The format is
/// a single character.
fn write_structs(
    memory: &mut LinearMemory,
    format: u8,
    len: usize,
    nullable: bool,
    buffer_ptrs: &[u32],
) -> (pair: Option<(u32, u32)>)
    requires
        old(memory)@.wf(),
    ensures
        final(memory)@.wf(),
        match structs_spec(old(memory)@, format, len as u64, nullable, buffer_ptrs@) {
            Some((ptrs, after)) => pair == Some(ptrs) && final(memory)@ == after,
            None => pair is None,
        },
{
    let mut format_bytes: Vec<u8> = Vec::new();
    format_bytes.push(format);
    format_bytes.push(0);
    assert(format_bytes@ =~= seq![format, 0u8]);
    let format_ptr: u32 = match alloc_bytes(memory, format_bytes.as_slice()) {
        Some(ptr) => ptr,
        None => {
            return None;
        },
    };

    let mut buffers: Vec<u8> = Vec::new();
    let mut i: usize = 0;
    assert(buffer_ptrs@.take(0) =~= Seq::empty());
    while i < buffer_ptrs.len()
        invariant
            i <= buffer_ptrs@.len(),
            buffers@ == pointer_table(buffer_ptrs@.take(i as int)),
        decreases buffer_ptrs@.len() - i,
    {
        push_u32(&mut buffers, buffer_ptrs[i]);
        assert(buffer_ptrs@.take(i + 1).drop_last() =~= buffer_ptrs@.take(i as int));
        i = i + 1;
    }
    assert(buffer_ptrs@.take(i as int) =~= buffer_ptrs@);
    let buffers_ptr: u32 = match alloc_bytes(memory, buffers.as_slice()) {
        Some(ptr) => ptr,
        None => {
            return None;
        },
    };

    let mut schema_buf: Vec<u8> = Vec::new();
    push_u32(&mut schema_buf, format_ptr);
    push_zeros(&mut schema_buf, 12);
    let flags: u64 = if nullable {
        arrow_schema::FLAG_NULLABLE
    } else {
        0
    };
    push_u64(&mut schema_buf, flags);
    push_zeros(&mut schema_buf, 24);
    assert(schema_buf@ =~= schema_bytes(format_ptr, nullable));
    let schema_ptr: u32 = match alloc_bytes(memory, schema_buf.as_slice()) {
        Some(ptr) => ptr,
        None => {
            return None;
        },
    };

    let has_bitmap: bool = buffer_ptrs.len() > 0 && buffer_ptrs[0] != 0;
    let mut array_buf: Vec<u8> = Vec::new();
    push_u64(&mut array_buf, len as u64);
    let null_count: u64 = if has_bitmap {
        u64::MAX
    } else {
        0
    };
    push_u64(&mut array_buf, null_count);
    push_zeros(&mut array_buf, 8);
    push_u64(&mut array_buf, buffer_ptrs.len() as u64);
    push_zeros(&mut array_buf, 8);
    push_u32(&mut array_buf, buffers_ptr);
    push_zeros(&mut array_buf, 20);
    assert(array_buf@ =~= array_bytes(
        len as u64,
        has_bitmap,
        buffer_ptrs@.len() as u64,
        buffers_ptr,
    ));
    match alloc_bytes(memory, array_buf.as_slice()) {
        Some(array_ptr) => Some((array_ptr, schema_ptr)),
        None => None,
    }
}

/// A read-only view of a host-decoded child array delivered as Arrow C structs.
pub enum ChildView<'a> {
    /// A primitive child.
    Primitive(PrimitiveView<'a>),
    /// A boolean child (e.g. a validity bitmap).
    Bool(BoolView<'a>),
}

/// A primitive child array.
pub struct PrimitiveView<'a> {
    /// Element type.
    pub ptype: PType,
    /// Logical element count.
    pub len: usize,
    /// Little-endian values (`len * ptype.byte_width()` bytes).
    pub values: &'a [u8],
    /// Validity bitmap, if the child carries one.
    pub validity: Option<&'a [u8]>,
}

/// A boolean child array; values are an LSB-first bitmap.
pub struct BoolView<'a> {
    /// Logical element count.
    pub len: usize,
    /// The values bitmap (`ceil(len / 8)` bytes).
    pub bits: &'a [u8],
    /// Validity bitmap, if the child carries one.
    pub validity: Option<&'a [u8]>,
}

impl<'a> PrimitiveView<'a> {
    /// Read element `i` widened to `u64` (values are unsigned-reinterpreted).
    pub fn value_u64(&self, i: usize) -> (value: u64)
        requires
            (i + 1) * self.ptype.width() <= self.values@.len(),
        ensures
            value == le_value(
                self.values@.subrange(
                    i * self.ptype.width() as int,
                    (i + 1) * self.ptype.width() as int,
                ),
            ),
    {
        let plain = crate::data::PrimitiveView {
            ptype: self.ptype,
            len: self.len,
            values: self.values,
            validity: crate::data::ValidityView::NonNullable,
        };
        plain.value_u64(i)
    }
}

/// The content of a child array.
#[verifier::ext_equal]
pub struct ChildModel {
    /// The element type; `None` for booleans.
    pub ptype: Option<PType>,
    /// Logical element count.
    pub len: nat,
    /// The values: little-endian elements, or a bitmap.
    pub values: Seq<u8>,
    /// The validity bitmap, if there is one.
    pub validity: Option<Seq<u8>>,
}

/// The bytes of an optional slice.
pub open spec fn slice_bytes<'a>(slice: Option<&'a [u8]>) -> Option<Seq<u8>> {
    match slice {
        Some(bytes) => Some(bytes@),
        None => None,
    }
}

impl<'a> View for ChildView<'a> {
    type V = ChildModel;

    open spec fn view(&self) -> ChildModel {
        match self {
            ChildView::Primitive(p) => ChildModel {
                ptype: Some(p.ptype),
                len: p.len as nat,
                values: p.values@,
                validity: slice_bytes(p.validity),
            },
            ChildView::Bool(b) => ChildModel {
                ptype: None,
                len: b.len as nat,
                values: b.bits@,
                validity: slice_bytes(b.validity),
            },
        }
    }
}

/// The primitive type whose format code is the given string.
pub open spec fn ptype_of_format(code: Seq<u8>) -> Option<PType> {
    if exists|ptype: PType| code == seq![#[trigger] ptype.format()] {
        Some(choose|ptype: PType| code == seq![#[trigger] ptype.format()])
    } else {
        None
    }
}

/// The `u32` at `address`, if it is inside the memory.
pub open spec fn load_u32_spec(memory: Memory, address: int) -> Result<u32, GuestError> {
    if memory.holds(address, 4) {
        Ok(u32_at(memory.bytes, address))
    } else {
        Err(GuestError::of("struct outside guest memory"))
    }
}

/// The `u64` at `address`, if it is inside the memory.
pub open spec fn load_u64_spec(memory: Memory, address: int) -> Result<u64, GuestError> {
    if memory.holds(address, 8) {
        Ok(u64_at(memory.bytes, address))
    } else {
        Err(GuestError::of("struct outside guest memory"))
    }
}

/// The NUL-terminated format code at `ptr`, whose terminator is looked for from position `n` on.
pub open spec fn load_cstr_spec(memory: Memory, ptr: u32, n: int) -> Result<Seq<u8>, GuestError>
    decreases 8 - n,
{
    if n >= 8 {
        Err(GuestError::of("unterminated Arrow format code"))
    } else if !memory.holds(ptr + n, 1) {
        Err(GuestError::of("struct outside guest memory"))
    } else if memory.bytes[ptr + n] == 0 {
        let code = memory.load(ptr as int, n);
        if valid_utf8(code) {
            Ok(code)
        } else {
            Err(GuestError::of("non-utf8 Arrow format code"))
        }
    } else {
        load_cstr_spec(memory, ptr, n + 1)
    }
}

/// The buffer of `len` bytes at `ptr`.
pub open spec fn load_buffer_spec(memory: Memory, ptr: u32, len: int) -> Result<
    Seq<u8>,
    GuestError,
> {
    if memory.holds(ptr as int, len) {
        Ok(memory.load(ptr as int, len))
    } else {
        Err(GuestError::of("buffer outside guest memory"))
    }
}

/// The child that the Arrow C structs at the two addresses describe.
pub open spec fn child_spec(memory: Memory, array_ptr: u32, schema_ptr: u32) -> Result<
    ChildModel,
    GuestError,
> {
    match load_u32_spec(memory, schema_ptr + arrow_schema::FORMAT) {
        Err(e) => Err(e),
        Ok(format_ptr) => match load_cstr_spec(memory, format_ptr, 0) {
            Err(e) => Err(e),
            Ok(format) => match load_u64_spec(memory, array_ptr + arrow_array::LENGTH) {
                Err(e) => Err(e),
                Ok(len) => match load_u64_spec(memory, array_ptr + arrow_array::OFFSET) {
                    Err(e) => Err(e),
                    Ok(offset) => if offset as usize != 0 {
                        Err(GuestError::of("child arrays must have offset 0"))
                    } else {
                        child_buffers_spec(memory, array_ptr, format, len as usize)
                    },
                },
            },
        },
    }
}

/// The child of the given format and length whose buffers the array struct at `array_ptr` names.
pub open spec fn child_buffers_spec(
    memory: Memory,
    array_ptr: u32,
    format: Seq<u8>,
    len: usize,
) -> Result<ChildModel, GuestError> {
    match load_u32_spec(memory, array_ptr + arrow_array::BUFFERS) {
        Err(e) => Err(e),
        Ok(buffers_ptr) => match load_u32_spec(memory, buffers_ptr as int) {
            Err(e) => Err(e),
            Ok(validity_ptr) => match load_u32_spec(memory, buffers_ptr + 4) {
                Err(e) => Err(e),
                Ok(values_ptr) => {
                    let bits = load_buffer_spec(memory, validity_ptr, bitmap_len(len as int));
                    if validity_ptr != 0 && bits is Err {
                        Err(bits->Err_0)
                    } else {
                        let validity = if validity_ptr != 0 {
                            Some(bits->Ok_0)
                        } else {
                            None
                        };
                        if format == seq![98u8] {
                            match load_buffer_spec(memory, values_ptr, bitmap_len(len as int)) {
                                Err(e) => Err(e),
                                Ok(values) => Ok(
                                    ChildModel { ptype: None, len: len as nat, values, validity },
                                ),
                            }
                        } else {
                            match ptype_of_format(format) {
                                None => Err(
                                    GuestError::of("child has unsupported Arrow format"),
                                ),
                                Some(ptype) => match load_buffer_spec(
                                    memory,
                                    values_ptr,
                                    len * ptype.width(),
                                ) {
                                    Err(e) => Err(e),
                                    Ok(values) => Ok(
                                        ChildModel {
                                            ptype: Some(ptype),
                                            len: len as nat,
                                            values,
                                            validity,
                                        },
                                    ),
                                },
                            }
                        }
                    }
                },
            },
        },
    }
}

/// Whether `bytes` are UTF-8, by `core::str::from_utf8`: the claim is that it succeeds on exactly
/// the well-formed sequences.
#[verifier::external_body]
fn is_utf8(bytes: &[u8]) -> (valid: bool)
    ensures
        valid == valid_utf8(bytes@),
{
    core::str::from_utf8(bytes).is_ok()
}

fn load_u32(memory: &LinearMemory, address: u64) -> (result: GuestResult<u32>)
    ensures
        result == load_u32_spec(memory@, address as int),
{
    let size: usize = memory.bytes.len();
    if size < 4 || address > (size - 4) as u64 {
        return Err(GuestError::new("struct outside guest memory"));
    }
    Ok(read_u32(memory.bytes.as_slice(), address as usize))
}

fn load_u64(memory: &LinearMemory, address: u64) -> (result: GuestResult<u64>)
    ensures
        result == load_u64_spec(memory@, address as int),
{
    let size: usize = memory.bytes.len();
    if size < 8 || address > (size - 8) as u64 {
        return Err(GuestError::new("struct outside guest memory"));
    }
    Ok(read_u64(memory.bytes.as_slice(), address as usize))
}

/// The format code at `ptr`: 1-3 ASCII bytes, so a small bound is scanned for the NUL terminator.
fn load_cstr<'a>(memory: &'a LinearMemory, ptr: u32) -> (result: GuestResult<&'a [u8]>)
    ensures
        match result {
            Ok(code) => load_cstr_spec(memory@, ptr, 0) == Ok::<_, GuestError>(code@),
            Err(e) => load_cstr_spec(memory@, ptr, 0) == Err::<Seq<u8>, _>(e),
        },
{
    let size: usize = memory.bytes.len();
    let mut n: usize = 0;
    while n < 8
        invariant
            n <= 8,
            size == memory.bytes@.len(),
            n > 0 ==> ptr + n <= size,
            load_cstr_spec(memory@, ptr, 0) == load_cstr_spec(memory@, ptr, n as int),
        decreases 8 - n,
    {
        if ptr as usize >= size || n >= size - ptr as usize {
            return Err(GuestError::new("struct outside guest memory"));
        }
        let byte: u8 = memory.bytes[ptr as usize + n];
        if byte == 0 {
            return match memory.load(ptr, n) {
                Some(code) => if is_utf8(code) {
                    Ok(code)
                } else {
                    Err(GuestError::new("non-utf8 Arrow format code"))
                },
                None => Err(GuestError::new("struct outside guest memory")),
            };
        }
        n = n + 1;
    }
    Err(GuestError::new("unterminated Arrow format code"))
}

fn load_buffer<'a>(memory: &'a LinearMemory, ptr: u32, len: usize) -> (result: GuestResult<
    &'a [u8],
>)
    ensures
        match result {
            Ok(bytes) => load_buffer_spec(memory@, ptr, len as int) == Ok::<_, GuestError>(bytes@),
            Err(e) => load_buffer_spec(memory@, ptr, len as int) == Err::<Seq<u8>, _>(e),
        },
{
    match memory.load(ptr, len) {
        Some(bytes) => Ok(bytes),
        None => Err(GuestError::new("buffer outside guest memory")),
    }
}

/// Parse the Arrow C Data Interface structs at `array_ptr`/`schema_ptr` in linear memory into a
/// [`ChildView`]. A struct or buffer that is not inside the memory is an error.
pub fn read_child<'a>(memory: &'a LinearMemory, array_ptr: u32, schema_ptr: u32) -> (result:
    GuestResult<ChildView<'a>>)
    ensures
        match result {
            Ok(child) => child_spec(memory@, array_ptr, schema_ptr) == Ok::<_, GuestError>(child@),
            Err(e) => child_spec(memory@, array_ptr, schema_ptr) == Err::<ChildModel, _>(e),
        },
{
    let format_ptr: u32 = match load_u32(memory, schema_ptr as u64 + arrow_schema::FORMAT as u64) {
        Ok(ptr) => ptr,
        Err(e) => {
            return Err(e);
        },
    };
    let format: &'a [u8] = match load_cstr(memory, format_ptr) {
        Ok(format) => format,
        Err(e) => {
            return Err(e);
        },
    };
    let len: usize = match load_u64(memory, array_ptr as u64 + arrow_array::LENGTH as u64) {
        Ok(len) => len as usize,
        Err(e) => {
            return Err(e);
        },
    };
    let offset: usize = match load_u64(memory, array_ptr as u64 + arrow_array::OFFSET as u64) {
        Ok(offset) => offset as usize,
        Err(e) => {
            return Err(e);
        },
    };
    if offset != 0 {
        return Err(GuestError::new("child arrays must have offset 0"));
    }
    read_child_buffers(memory, array_ptr, format, len)
}

/// The child of the given format and length whose buffers the array struct names.
fn read_child_buffers<'a>(
    memory: &'a LinearMemory,
    array_ptr: u32,
    format: &'a [u8],
    len: usize,
) -> (result: GuestResult<ChildView<'a>>)
    ensures
        match result {
            Ok(child) => child_buffers_spec(memory@, array_ptr, format@, len) == Ok::<
                _,
                GuestError,
            >(child@),
            Err(e) => child_buffers_spec(memory@, array_ptr, format@, len) == Err::<ChildModel, _>(
                e,
            ),
        },
{
    let buffers_ptr: u32 = match load_u32(memory, array_ptr as u64 + arrow_array::BUFFERS as u64) {
        Ok(ptr) => ptr,
        Err(e) => {
            return Err(e);
        },
    };
    let validity_ptr: u32 = match load_u32(memory, buffers_ptr as u64) {
        Ok(ptr) => ptr,
        Err(e) => {
            return Err(e);
        },
    };
    let values_ptr: u32 = match load_u32(memory, buffers_ptr as u64 + 4) {
        Ok(ptr) => ptr,
        Err(e) => {
            return Err(e);
        },
    };
    let bitmap_bytes: usize = len / 8 + if len % 8 == 0 { 0 } else { 1 };
    assert(bitmap_bytes == bitmap_len(len as int));
    let validity: Option<&'a [u8]> = if validity_ptr != 0 {
        match load_buffer(memory, validity_ptr, bitmap_bytes) {
            Ok(bits) => Some(bits),
            Err(e) => {
                return Err(e);
            },
        }
    } else {
        None
    };
    let is_bool: bool = format.len() == 1 && format[0] == 98;
    assert(is_bool == (format@ == seq![98u8])) by {
        if is_bool {
            assert(format@ =~= seq![98u8]);
        }
    }
    if is_bool {
        return match load_buffer(memory, values_ptr, bitmap_bytes) {
            Ok(bits) => Ok(ChildView::Bool(BoolView { len, bits, validity })),
            Err(e) => Err(e),
        };
    }
    let ptype: PType = match PType::from_format(format) {
        Some(ptype) => ptype,
        None => {
            return Err(GuestError::new("child has unsupported Arrow format"));
        },
    };
    proof {
        lemma_format_unique(format@, ptype);
    }
    let width: usize = ptype.byte_width();
    match len.checked_mul(width) {
        Some(bytes) => match load_buffer(memory, values_ptr, bytes) {
            Ok(values) => Ok(ChildView::Primitive(PrimitiveView { ptype, len, values, validity })),
            Err(e) => Err(e),
        },
        None => {
            assert(memory.bytes.len() <= usize::MAX);
            Err(GuestError::new("buffer outside guest memory"))
        },
    }
}

/// A format code names one primitive type.
proof fn lemma_format_unique(code: Seq<u8>, ptype: PType)
    requires
        code == seq![ptype.format()],
    ensures
        ptype_of_format(code) == Some(ptype),
{
    let found = choose|other: PType| code == seq![#[trigger] other.format()];
    assert(code == seq![found.format()]);
    assert(seq![found.format()][0] == seq![ptype.format()][0]);
}

/// What was written at `address` is there, and stays there.
proof fn lemma_still_there(before: Memory, bytes: Seq<u8>, later: Memory)
    requires
        before.wf(),
        alloc_bytes_spec(before, bytes) matches Some((_, after)) && after.kept_in(later),
    ensures
        ({
            let (address, after) = alloc_bytes_spec(before, bytes).unwrap();
            &&& stands_at(later.bytes, address as int, bytes)
            &&& later.holds(address as int, bytes.len() as int)
            &&& later.load(address as int, bytes.len() as int) == bytes
            &&& after.wf()
            &&& 0 < address
            &&& before.kept_in(later)
        }),
{
    let (address, after) = alloc_bytes_spec(before, bytes).unwrap();
    lemma_alloc_bytes(before, bytes);
    lemma_load_kept(after, later, address as int, bytes.len() as int);
    lemma_kept_in_trans(before, after, later);
}

/// A single format character is a code of its own.
proof fn lemma_format_loads(memory: Memory, ptr: u32, format: u8)
    requires
        stands_at(memory.bytes, ptr as int, seq![format, 0u8]),
        0 < format < 128,
    ensures
        load_cstr_spec(memory, ptr, 0) == Ok::<_, GuestError>(seq![format]),
{
    let text = seq![format, 0u8];
    let stored = memory.bytes.subrange(ptr as int, ptr + 2);
    assert(stored[0] == text[0] && stored[1] == text[1]);
    assert(memory.bytes[ptr as int] == format && memory.bytes[ptr + 1] == 0);
    reveal_with_fuel(load_cstr_spec, 2);
    let code = memory.load(ptr as int, 1);
    assert(code =~= seq![format]);
    assert(valid_utf8(code)) by {
        reveal_with_fuel(valid_utf8, 2);
        assert(format & 0x80 == 0) by (bit_vector)
            requires
                format < 128,
        ;
        assert(format & 0x7F == format) by (bit_vector)
            requires
                format < 128,
        ;
        assert(vstd::utf8::pop_first_scalar(code) =~= Seq::empty());
    }
}

proof fn lemma_schema_reads(bytes: Seq<u8>, at: int, format_ptr: u32, nullable: bool)
    requires
        stands_at(bytes, at, schema_bytes(format_ptr, nullable)),
    ensures
        at + arrow_schema::SIZE <= bytes.len(),
        u32_at(bytes, at) == format_ptr,
{
    let flags = u64_le(
        if nullable {
            arrow_schema::FLAG_NULLABLE
        } else {
            0
        },
    );
    lemma_split(bytes, at, u32_le(format_ptr) + zeros(12) + flags, zeros(24));
    lemma_split(bytes, at, u32_le(format_ptr) + zeros(12), flags);
    lemma_split(bytes, at, u32_le(format_ptr), zeros(12));
    lemma_u32_round_trip(bytes, at, format_ptr);
}

proof fn lemma_array_reads(
    bytes: Seq<u8>,
    at: int,
    len: u64,
    has_bitmap: bool,
    n_buffers: u64,
    buffers_ptr: u32,
)
    requires
        stands_at(bytes, at, array_bytes(len, has_bitmap, n_buffers, buffers_ptr)),
    ensures
        at + arrow_array::SIZE <= bytes.len(),
        u64_at(bytes, at) == len,
        u64_at(bytes, at + 16) == 0,
        u32_at(bytes, at + 40) == buffers_ptr,
{
    let first = u64_le(len);
    let nulls = u64_le(
        if has_bitmap {
            u64::MAX
        } else {
            0
        },
    );
    let count = u64_le(n_buffers);
    let ptr = u32_le(buffers_ptr);
    lemma_split(bytes, at, first + nulls + zeros(8) + count + zeros(8) + ptr, zeros(20));
    lemma_split(bytes, at, first + nulls + zeros(8) + count + zeros(8), ptr);
    lemma_split(bytes, at, first + nulls + zeros(8) + count, zeros(8));
    lemma_split(bytes, at, first + nulls + zeros(8), count);
    lemma_split(bytes, at, first + nulls, zeros(8));
    lemma_split(bytes, at, first, nulls);
    lemma_u64_round_trip(bytes, at, len);
    assert(zeros(8) =~= u64_le(0)) by {
        reveal(u64_le);
        reveal(u32_le);
    }
    lemma_u64_round_trip(bytes, at + 16, 0);
    lemma_u32_round_trip(bytes, at + 40, buffers_ptr);
}

proof fn lemma_table_reads(bytes: Seq<u8>, at: int, first: u32, second: u32)
    requires
        stands_at(bytes, at, pointer_table(seq![first, second])),
    ensures
        at + 8 <= bytes.len(),
        u32_at(bytes, at) == first,
        u32_at(bytes, at + 4) == second,
{
    let ptrs = seq![first, second];
    assert(ptrs.drop_last() =~= seq![first]);
    assert(seq![first].drop_last() =~= Seq::empty());
    reveal_with_fuel(pointer_table, 3);
    assert(pointer_table(ptrs) =~= u32_le(first) + u32_le(second));
    lemma_split(bytes, at, u32_le(first), u32_le(second));
    lemma_u32_round_trip(bytes, at, first);
    lemma_u32_round_trip(bytes, at + 4, second);
}

/// A primitive array written as Arrow C structs reads back as itself.
pub proof fn law_primitive_round_trip(memory: Memory, array: DecodedPrimitive)
    requires
        memory.wf(),
        array.values@.len() == array.len * array.ptype.width(),
        array.validity matches Some(bits) ==> bits@.len() == bitmap_len(array.len as int),
    ensures
        primitive_structs_spec(memory, array) matches Some(((array_ptr, schema_ptr), after))
            ==> child_spec(after, array_ptr, schema_ptr) == Ok::<_, GuestError>(
            ChildModel {
                ptype: Some(array.ptype),
                len: array.len as nat,
                values: array.values@,
                validity: validity_bits(array.validity),
            },
        ),
{
    if let Some(((array_ptr, schema_ptr), last)) = primitive_structs_spec(memory, array) {
        let format = seq![array.ptype.format(), 0u8];
        let (values_ptr, m1) = alloc_bytes_spec(memory, array.values@).unwrap();
        let bits = validity_bits(array.validity);
        let (validity_ptr, m2) = place_bitmap(m1, bits).unwrap();
        let ptrs = seq![validity_ptr, values_ptr];
        let (format_ptr, m3) = alloc_bytes_spec(m2, format).unwrap();
        let (buffers_ptr, m4) = alloc_bytes_spec(m3, pointer_table(ptrs)).unwrap();
        let schema = schema_bytes(format_ptr, array.nullable);
        let (_, m5) = alloc_bytes_spec(m4, schema).unwrap();
        let has_bitmap = ptrs[0] != 0;
        let fields = array_bytes(array.len as u64, has_bitmap, 2, buffers_ptr);
        lemma_alloc_bytes(memory, array.values@);
        if let Some(bits) = bits {
            lemma_alloc_bytes(m1, bits);
        }
        lemma_alloc_bytes(m2, format);
        lemma_alloc_bytes(m3, pointer_table(ptrs));
        lemma_alloc_bytes(m4, schema);
        lemma_alloc_bytes(m5, fields);
        lemma_still_there(m5, fields, last);
        lemma_still_there(m4, schema, last);
        lemma_still_there(m3, pointer_table(ptrs), last);
        lemma_still_there(m2, format, last);
        if let Some(bits) = bits {
            lemma_still_there(m1, bits, last);
        }
        lemma_still_there(memory, array.values@, last);

        let bytes = last.bytes;
        lemma_schema_reads(bytes, schema_ptr as int, format_ptr, array.nullable);
        lemma_format_loads(last, format_ptr, array.ptype.format());
        lemma_format_unique(seq![array.ptype.format()], array.ptype);
        lemma_array_reads(bytes, array_ptr as int, array.len as u64, has_bitmap, 2, buffers_ptr);
        lemma_table_reads(bytes, buffers_ptr as int, validity_ptr, values_ptr);
        assert(seq![array.ptype.format()] != seq![98u8]) by {
            assert(seq![array.ptype.format()][0] != seq![98u8][0]);
        }
    }
}

/// The address of buffer `k` of the array struct at `array_ptr`.
pub open spec fn buffer_address(memory: Memory, array_ptr: u32, k: int) -> u32 {
    u32_at(memory.bytes, u32_at(memory.bytes, array_ptr + 40) + 4 * k)
}

/// Whether the bytes stand at an address, which is not 0.
pub open spec fn holds_bytes(memory: Memory, address: u32, bytes: Seq<u8>) -> bool {
    0 < address && stands_at(memory.bytes, address as int, bytes)
}

/// Whether the bitmap of an optional validity stands at an address, which is 0 if there is none.
pub open spec fn holds_bitmap(memory: Memory, address: u32, bits: Option<Seq<u8>>) -> bool {
    match bits {
        Some(bits) => holds_bytes(memory, address, bits),
        None => address == 0,
    }
}

/// Whether a reader of the C structs finds an array without children, of this format, length,
/// nullability and number of buffers, which starts at its first element and whose null count is
/// left open if it has a bitmap.
pub open spec fn describes(
    memory: Memory,
    array_ptr: u32,
    schema_ptr: u32,
    format: u8,
    len: int,
    nullable: bool,
    n_buffers: int,
) -> bool {
    let bytes = memory.bytes;
    let format_ptr = u32_at(bytes, schema_ptr as int) as int;
    &&& schema_ptr + 48 <= bytes.len()
    &&& array_ptr + 64 <= bytes.len()
    &&& format_ptr + 2 <= bytes.len()
    &&& bytes[format_ptr] == format
    &&& bytes[format_ptr + 1] == 0
    &&& u64_at(bytes, schema_ptr + 16) == if nullable {
        2u64
    } else {
        0u64
    }
    &&& u64_at(bytes, schema_ptr + 24) == 0
    &&& u64_at(bytes, array_ptr as int) == len
    &&& u64_at(bytes, array_ptr + 8) == if buffer_address(memory, array_ptr, 0) != 0 {
        u64::MAX
    } else {
        0
    }
    &&& u64_at(bytes, array_ptr + 16) == 0
    &&& u64_at(bytes, array_ptr + 24) == n_buffers
    &&& u64_at(bytes, array_ptr + 32) == 0
    &&& u32_at(bytes, array_ptr + 40) + 4 * n_buffers <= bytes.len()
}

/// Pointer `k` stands at its place in a buffer table.
proof fn lemma_pointer_at(ptrs: Seq<u32>, bytes: Seq<u8>, at: int, k: int)
    requires
        0 <= k < ptrs.len(),
        stands_at(bytes, at, pointer_table(ptrs)),
    ensures
        pointer_table(ptrs).len() == 4 * ptrs.len(),
        u32_at(bytes, at + 4 * k) == ptrs[k],
    decreases ptrs.len(),
{
    let front = ptrs.drop_last();
    lemma_split(bytes, at, pointer_table(front), u32_le(ptrs.last()));
    if front.len() > 0 {
        lemma_pointer_at(front, bytes, at, if k < front.len() { k } else { 0 });
    } else {
        assert(pointer_table(front).len() == 0);
    }
    if k == front.len() {
        lemma_u32_round_trip(bytes, at + 4 * k, ptrs.last());
    } else {
        assert(front[k] == ptrs[k]);
    }
}

/// Offset `k` stands at its place among the encoded offsets.
proof fn lemma_offset_at(offsets: Seq<i32>, bytes: Seq<u8>, at: int, k: int)
    requires
        0 <= k < offsets.len(),
        stands_at(bytes, at, offset_bytes(offsets)),
    ensures
        offset_bytes(offsets).len() == 4 * offsets.len(),
        u32_at(bytes, at + 4 * k) == offsets[k] as u32,
    decreases offsets.len(),
{
    let front = offsets.drop_last();
    lemma_split(bytes, at, offset_bytes(front), u32_le(offsets.last() as u32));
    if front.len() > 0 {
        lemma_offset_at(front, bytes, at, if k < front.len() { k } else { 0 });
    } else {
        assert(offset_bytes(front).len() == 0);
    }
    if k == front.len() {
        lemma_u32_round_trip(bytes, at + 4 * k, offsets.last() as u32);
    } else {
        assert(front[k] == offsets[k]);
    }
}

/// The structs of an array describe it, and nothing that was in memory before changes.
proof fn lemma_structs_read(
    memory: Memory,
    format: u8,
    len: u64,
    nullable: bool,
    ptrs: Seq<u32>,
    later: Memory,
)
    requires
        memory.wf(),
        0 < ptrs.len() <= u32::MAX,
        structs_spec(memory, format, len, nullable, ptrs) matches Some((_, after))
            && after.kept_in(later),
    ensures
        structs_spec(memory, format, len, nullable, ptrs) matches Some(
            ((array_ptr, schema_ptr), after),
        ) ==> {
            &&& after.wf()
            &&& memory.kept_in(later)
            &&& describes(
                later,
                array_ptr,
                schema_ptr,
                format,
                len as int,
                nullable,
                ptrs.len() as int,
            )
            &&& forall|k: int|
                0 <= k < ptrs.len() ==> buffer_address(later, array_ptr, k) == #[trigger] ptrs[k]
        },
{
    if let Some(((array_ptr, schema_ptr), last)) = structs_spec(
        memory,
        format,
        len,
        nullable,
        ptrs,
    ) {
        let text = seq![format, 0u8];
        let (format_ptr, m1) = alloc_bytes_spec(memory, text).unwrap();
        let (buffers_ptr, m2) = alloc_bytes_spec(m1, pointer_table(ptrs)).unwrap();
        let schema = schema_bytes(format_ptr, nullable);
        let (_, m3) = alloc_bytes_spec(m2, schema).unwrap();
        let has_bitmap = ptrs[0] != 0;
        let fields = array_bytes(len, has_bitmap, ptrs.len() as u64, buffers_ptr);
        lemma_alloc_bytes(memory, text);
        lemma_alloc_bytes(m1, pointer_table(ptrs));
        lemma_alloc_bytes(m2, schema);
        lemma_alloc_bytes(m3, fields);
        lemma_still_there(m3, fields, later);
        lemma_still_there(m2, schema, later);
        lemma_still_there(m1, pointer_table(ptrs), later);
        lemma_still_there(memory, text, later);
        let bytes = later.bytes;
        let stored = bytes.subrange(format_ptr as int, format_ptr + 2);
        assert(stored[0] == text[0] && stored[1] == text[1]);
        lemma_schema_fields(bytes, schema_ptr as int, format_ptr, nullable);
        lemma_array_fields(
            bytes,
            array_ptr as int,
            len,
            has_bitmap,
            ptrs.len() as u64,
            buffers_ptr,
        );
        assert forall|k: int| 0 <= k < ptrs.len() implies buffer_address(later, array_ptr, k)
            == #[trigger] ptrs[k] by {
            lemma_pointer_at(ptrs, bytes, buffers_ptr as int, k);
        }
        lemma_pointer_at(ptrs, bytes, buffers_ptr as int, 0);
        assert(buffer_address(later, array_ptr, 0) == ptrs[0]);
    }
}

/// The fields of a schema struct stand at their offsets.
proof fn lemma_schema_fields(bytes: Seq<u8>, at: int, format_ptr: u32, nullable: bool)
    requires
        stands_at(bytes, at, schema_bytes(format_ptr, nullable)),
    ensures
        at + 48 <= bytes.len(),
        u32_at(bytes, at) == format_ptr,
        u64_at(bytes, at + 16) == if nullable {
            2u64
        } else {
            0u64
        },
        u64_at(bytes, at + 24) == 0,
{
    let flag: u64 = if nullable {
        2
    } else {
        0
    };
    let head = u32_le(format_ptr) + zeros(12);
    lemma_schema_reads(bytes, at, format_ptr, nullable);
    lemma_split(bytes, at, head + u64_le(flag), zeros(24));
    lemma_split(bytes, at, head, u64_le(flag));
    lemma_u64_round_trip(bytes, at + 16, flag);
    lemma_zero_u64(bytes, at + 24, zeros(24));
}

/// A number among zeros is 0.
proof fn lemma_zero_u64(bytes: Seq<u8>, at: int, part: Seq<u8>)
    requires
        stands_at(bytes, at, part),
        8 <= part.len(),
        forall|i: int| 0 <= i < 8 ==> #[trigger] part[i] == 0,
    ensures
        u64_at(bytes, at) == 0,
{
    reveal(u64_at);
    reveal(u32_at);
    let stored = bytes.subrange(at, at + part.len());
    assert forall|i: int| 0 <= i < 8 implies #[trigger] bytes[at + i] == 0 by {
        assert(stored[i] == part[i]);
    }
    assert(bytes[at] == bytes[at + 0]);
    assert(bytes[at + 1] == 0 && bytes[at + 2] == 0 && bytes[at + 3] == 0 && bytes[at + 4] == 0
        && bytes[at + 5] == 0 && bytes[at + 6] == 0 && bytes[at + 7] == 0);
    assert(bytes[at + 4 + 1] == 0 && bytes[at + 4 + 2] == 0 && bytes[at + 4 + 3] == 0);
}

/// The fields of an array struct stand at their offsets.
proof fn lemma_array_fields(
    bytes: Seq<u8>,
    at: int,
    len: u64,
    has_bitmap: bool,
    n_buffers: u64,
    buffers_ptr: u32,
)
    requires
        stands_at(bytes, at, array_bytes(len, has_bitmap, n_buffers, buffers_ptr)),
    ensures
        at + 64 <= bytes.len(),
        u64_at(bytes, at) == len,
        u64_at(bytes, at + 8) == if has_bitmap {
            u64::MAX
        } else {
            0
        },
        u64_at(bytes, at + 16) == 0,
        u64_at(bytes, at + 24) == n_buffers,
        u64_at(bytes, at + 32) == 0,
        u32_at(bytes, at + 40) == buffers_ptr,
{
    lemma_array_reads(bytes, at, len, has_bitmap, n_buffers, buffers_ptr);
    let missing: u64 = if has_bitmap {
        u64::MAX
    } else {
        0
    };
    let first = u64_le(len);
    let nulls = u64_le(missing);
    let count = u64_le(n_buffers);
    let ptr = u32_le(buffers_ptr);
    lemma_split(bytes, at, first + nulls + zeros(8) + count + zeros(8) + ptr, zeros(20));
    lemma_split(bytes, at, first + nulls + zeros(8) + count + zeros(8), ptr);
    lemma_split(bytes, at, first + nulls + zeros(8) + count, zeros(8));
    lemma_split(bytes, at, first + nulls + zeros(8), count);
    lemma_split(bytes, at, first + nulls, zeros(8));
    lemma_split(bytes, at, first, nulls);
    lemma_u64_round_trip(bytes, at + 8, missing);
    lemma_u64_round_trip(bytes, at + 24, n_buffers);
    lemma_zero_u64(bytes, at + 32, zeros(8));
}

/// Whether a reader of the C structs finds a primitive array: its bitmap and then its values.
pub open spec fn reads_primitive(
    memory: Memory,
    array_ptr: u32,
    schema_ptr: u32,
    array: DecodedPrimitive,
) -> bool {
    &&& describes(
        memory,
        array_ptr,
        schema_ptr,
        array.ptype.format(),
        array.len as int,
        array.nullable,
        2,
    )
    &&& holds_bitmap(memory, buffer_address(memory, array_ptr, 0), validity_bits(array.validity))
    &&& holds_bytes(memory, buffer_address(memory, array_ptr, 1), array.values@)
}

/// Whether a reader of the C structs finds a string array: its bitmap, its offsets and then the
/// bytes of the strings. The format of strings is the letter u.
pub open spec fn reads_utf8(
    memory: Memory,
    array_ptr: u32,
    schema_ptr: u32,
    array: DecodedUtf8,
) -> bool {
    let offsets = buffer_address(memory, array_ptr, 1);
    &&& describes(memory, array_ptr, schema_ptr, 0x75, array.len as int, array.nullable, 3)
    &&& holds_bitmap(memory, buffer_address(memory, array_ptr, 0), validity_bits(array.validity))
    &&& 0 < offsets
    &&& offsets + 4 * array.offsets@.len() <= memory.bytes.len()
    &&& forall|i: int|
        0 <= i < array.offsets@.len() ==> u32_at(memory.bytes, offsets + 4 * i) == (
        #[trigger] array.offsets@[i]) as u32
    &&& holds_bytes(memory, buffer_address(memory, array_ptr, 2), array.values@)
}

/// The structs of a primitive array are read as it, whatever is allocated after them.
pub proof fn law_primitive_read(memory: Memory, array: DecodedPrimitive, later: Memory)
    requires
        memory.wf(),
        primitive_structs_spec(memory, array) matches Some((_, after)) && after.kept_in(later),
    ensures
        primitive_structs_spec(memory, array) matches Some(((array_ptr, schema_ptr), after)) ==> {
            &&& after.wf()
            &&& memory.kept_in(later)
            &&& reads_primitive(later, array_ptr, schema_ptr, array)
        },
{
    if let Some(((array_ptr, schema_ptr), last)) = primitive_structs_spec(memory, array) {
        let (values_ptr, m1) = alloc_bytes_spec(memory, array.values@).unwrap();
        let bits = validity_bits(array.validity);
        let (validity_ptr, m2) = place_bitmap(m1, bits).unwrap();
        let ptrs = seq![validity_ptr, values_ptr];
        lemma_alloc_bytes(memory, array.values@);
        if let Some(bits) = bits {
            lemma_alloc_bytes(m1, bits);
        }
        lemma_structs_read(m2, array.ptype.format(), array.len as u64, array.nullable, ptrs, later);
        if let Some(bits) = bits {
            lemma_still_there(m1, bits, later);
        }
        lemma_still_there(memory, array.values@, later);
        assert(ptrs[0] == validity_ptr && ptrs[1] == values_ptr);
    }
}

/// The structs of a string array are read as it, whatever is allocated after them.
pub proof fn law_utf8_read(memory: Memory, array: DecodedUtf8, later: Memory)
    requires
        memory.wf(),
        utf8_structs_spec(memory, array) matches Some((_, after)) && after.kept_in(later),
    ensures
        utf8_structs_spec(memory, array) matches Some(((array_ptr, schema_ptr), after)) ==> {
            &&& after.wf()
            &&& memory.kept_in(later)
            &&& reads_utf8(later, array_ptr, schema_ptr, array)
        },
{
    if let Some(((array_ptr, schema_ptr), last)) = utf8_structs_spec(memory, array) {
        let encoded = offset_bytes(array.offsets@);
        let (offsets_ptr, m1) = alloc_bytes_spec(memory, encoded).unwrap();
        let (values_ptr, m2) = alloc_bytes_spec(m1, array.values@).unwrap();
        let bits = validity_bits(array.validity);
        let (validity_ptr, m3) = place_bitmap(m2, bits).unwrap();
        let ptrs = seq![validity_ptr, offsets_ptr, values_ptr];
        lemma_alloc_bytes(memory, encoded);
        lemma_alloc_bytes(m1, array.values@);
        if let Some(bits) = bits {
            lemma_alloc_bytes(m2, bits);
        }
        lemma_structs_read(m3, 0x75, array.len as u64, array.nullable, ptrs, later);
        if let Some(bits) = bits {
            lemma_still_there(m2, bits, later);
        }
        lemma_still_there(m1, array.values@, later);
        lemma_still_there(memory, encoded, later);
        assert(ptrs[0] == validity_ptr && ptrs[1] == offsets_ptr && ptrs[2] == values_ptr);
        assert forall|i: int| 0 <= i < array.offsets@.len() implies u32_at(
            later.bytes,
            offsets_ptr + 4 * i,
        ) == (#[trigger] array.offsets@[i]) as u32 by {
            lemma_offset_at(array.offsets@, later.bytes, offsets_ptr as int, i);
        }
        if array.offsets@.len() > 0 {
            lemma_offset_at(array.offsets@, later.bytes, offsets_ptr as int, 0);
        }
    }
}

/// What a host finds at the address of a kernel's result: for an array, a 0 and the addresses of
/// its structs; for a gather, a 1, the slot of the child, and those of the indices.
pub proof fn law_result_read(memory: Memory, decoded: Decoded)
    requires
        memory.wf(),
    ensures
        result_spec(memory, decoded) matches Some((address, after)) ==> {
            let bytes = after.bytes;
            let word = |k: int| u32_at(bytes, address + 4 * k);
            &&& memory.kept_in(after)
            &&& match decoded {
                Decoded::Primitive(array) => word(0) == 0 && reads_primitive(
                    after,
                    word(1),
                    word(2),
                    array,
                ),
                Decoded::Utf8(array) => word(0) == 0 && reads_utf8(
                    after,
                    word(1),
                    word(2),
                    array,
                ),
                Decoded::Take(take) => word(0) == 1 && word(1) == take.values_slot
                    && reads_primitive(after, word(2), word(3), take.indices),
            }
        },
{
    if let Some((address, last)) = result_spec(memory, decoded) {
        match decoded {
            Decoded::Take(take) => {
                let ((a, s), before) = primitive_structs_spec(memory, take.indices).unwrap();
                let words = seq![1u32, take.values_slot as u32, a, s];
                law_primitive_read(memory, take.indices, before);
                lemma_words(words);
                lemma_alloc_bytes(before, pointer_table(words));
                lemma_still_there(before, pointer_table(words), last);
                law_primitive_read(memory, take.indices, last);
                lemma_result_words(words, last.bytes, address as int);
            },
            Decoded::Primitive(array) => {
                let ((a, s), before) = primitive_structs_spec(memory, array).unwrap();
                let words = seq![0u32, a, s];
                law_primitive_read(memory, array, before);
                lemma_words(words);
                lemma_alloc_bytes(before, pointer_table(words));
                lemma_still_there(before, pointer_table(words), last);
                law_primitive_read(memory, array, last);
                lemma_result_words(words, last.bytes, address as int);
            },
            Decoded::Utf8(array) => {
                let ((a, s), before) = utf8_structs_spec(memory, array).unwrap();
                let words = seq![0u32, a, s];
                law_utf8_read(memory, array, before);
                lemma_words(words);
                lemma_alloc_bytes(before, pointer_table(words));
                lemma_still_there(before, pointer_table(words), last);
                law_utf8_read(memory, array, last);
                lemma_result_words(words, last.bytes, address as int);
            },
        }
    }
}

/// Three or four words, one after the other.
proof fn lemma_words(words: Seq<u32>)
    requires
        words.len() == 3 || words.len() == 4,
    ensures
        words.len() == 3 ==> pointer_table(words) == u32_le(words[0]) + u32_le(words[1]) + u32_le(
            words[2],
        ),
        words.len() == 4 ==> pointer_table(words) == u32_le(words[0]) + u32_le(words[1]) + u32_le(
            words[2],
        ) + u32_le(words[3]),
{
    reveal_with_fuel(pointer_table, 5);
    let w3 = words.drop_last();
    let w2 = w3.drop_last();
    let w1 = w2.drop_last();
    assert(words.last() == words[words.len() - 1]);
    assert(w3.last() == words[words.len() - 2]);
    assert(w2.last() == words[words.len() - 3]);
    if words.len() == 3 {
        assert(w1 =~= Seq::empty());
        assert(pointer_table(words) =~= u32_le(words[0]) + u32_le(words[1]) + u32_le(words[2]));
    } else {
        assert(w1.last() == words[0]);
        assert(w1.drop_last() =~= Seq::empty());
        assert(pointer_table(words) =~= u32_le(words[0]) + u32_le(words[1]) + u32_le(words[2])
            + u32_le(words[3]));
    }
}

/// The words of a result stand at their places.
proof fn lemma_result_words(words: Seq<u32>, bytes: Seq<u8>, at: int)
    requires
        words.len() > 0,
        stands_at(bytes, at, pointer_table(words)),
    ensures
        forall|k: int| 0 <= k < words.len() ==> u32_at(bytes, at + 4 * k) == #[trigger] words[k],
{
    assert forall|k: int| 0 <= k < words.len() implies u32_at(bytes, at + 4 * k)
        == #[trigger] words[k] by {
        lemma_pointer_at(words, bytes, at, k);
    }
}

/// A child is read as what its structs describe: a primitive array of the type whose format code
/// it has, or with the letter b a bitmap of booleans, with the validity bitmap where it has one.
pub proof fn law_child_read(
    memory: Memory,
    array_ptr: u32,
    schema_ptr: u32,
    child: ChildModel,
    nullable: bool,
)
    requires
        child.len <= u32::MAX,
        describes(
            memory,
            array_ptr,
            schema_ptr,
            match child.ptype {
                Some(ptype) => ptype.format(),
                None => 0x62,
            },
            child.len as int,
            nullable,
            2,
        ),
        holds_bitmap(memory, buffer_address(memory, array_ptr, 0), child.validity),
        stands_at(
            memory.bytes,
            buffer_address(memory, array_ptr, 1) as int,
            child.values,
        ),
        child.validity matches Some(bits) ==> bits.len() == (child.len + 7) / 8,
        child.values.len() == (match child.ptype {
            Some(ptype) => child.len * ptype.width(),
            None => (child.len + 7) / 8,
        }),
    ensures
        child_spec(memory, array_ptr, schema_ptr) == Ok::<_, GuestError>(child),
{
    let bytes = memory.bytes;
    let format_ptr = u32_at(bytes, schema_ptr as int);
    let format: u8 = match child.ptype {
        Some(ptype) => ptype.format(),
        None => 0x62,
    };
    let stored = bytes.subrange(format_ptr as int, format_ptr + 2);
    assert(stored =~= seq![format, 0u8]);
    lemma_format_loads(memory, format_ptr, format);
    if let Some(ptype) = child.ptype {
        lemma_format_unique(seq![format], ptype);
        assert(seq![format][0] != seq![98u8][0]);
    }
    let len = child.len as usize;
    assert(bitmap_len(len as int) == (child.len + 7) / 8);
}

/// A child is read only from its first element on, and with as many values as it has elements: a
/// bitmap of them, or their width each.
pub proof fn law_child_accepts(memory: Memory, array_ptr: u32, schema_ptr: u32)
    ensures
        child_spec(memory, array_ptr, schema_ptr) matches Ok(child) ==> {
            &&& child.len == u64_at(memory.bytes, array_ptr as int) as usize
            &&& u64_at(memory.bytes, array_ptr + 16) as usize == 0
            &&& child.values.len() == (match child.ptype {
                Some(ptype) => child.len * ptype.width(),
                None => (child.len + 7) / 8,
            })
            &&& child.validity matches Some(bits) ==> bits.len() == (child.len + 7) / 8
            &&& child.validity is Some <==> buffer_address(memory, array_ptr, 0) != 0
        },
{
}

} // verus!
