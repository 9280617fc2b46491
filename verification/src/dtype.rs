//! The dtype wire codec: a compact encoding of a logical type.
//!
//! It is a preorder byte stream. Every type is one tag byte plus a payload, and composite types
//! simply contain more of the same:
//!
//! ```text
//! tag      := kind | (nullable << 6) | (derived << 7)
//! kind     := 0 Null | 1 Bool | 2 Primitive | 3 Decimal | 4 Utf8 | 5 Binary
//!           | 6 List | 7 FixedSizeList | 8 Struct | 9 Union | 10 Variant | 11 Extension
//!           | 12 Map
//!
//! Primitive     : u8 ptype
//! Decimal       : u8 precision, i8 scale
//! List          : dtype
//! FixedSizeList : varint size, dtype
//! Struct        : varint n, n x (varint name_len, utf8 name, dtype)
//! Union         : varint n, n x (varint name_len, utf8 name, u8 type_id, dtype)
//! Extension     : varint id_len, utf8 id, varint meta_len, meta, dtype (storage)
//! Map           : u8 keys_sorted, dtype (key), dtype (value)
//! others        : nothing
//! ```
//!
//! When the tag's high bit is set the low bits are a derivation: a type expressed as a path from
//! the parent rather than spelled out.
//!
//! ```text
//! Parent          : nothing              the node's own dtype
//! Field           : varint i, dtype      struct field i of the inner type
//! Element         : dtype                list / fixed-size-list element, or map entry
//!                                        struct, of the inner type
//! Storage         : dtype                storage type of the inner extension type
//! Nullable        : dtype                the inner type, made nullable
//! NonNullable     : dtype                the inner type, made non-nullable
//! ```
//!
//! Only the guest writes derivations. The host always writes literals.

pub use crate::dtype_expr::DTypeExpr;

use vstd::prelude::*;
use vstd::slice::slice_subrange;

use crate::abi::dtype_kind;
use crate::abi::dtype_tag;
use crate::abi::PType;
use crate::error::GuestError;
use crate::error::GuestResult;
use crate::varint::read_varint;
use crate::varint::varint;

verus! {

/// Maximum type nesting the guest will parse, matching the host's limit.
pub const MAX_DEPTH: usize = 32;

/// The kind or opcode of a tag byte: its low six bits.
pub open spec fn tag_kind(tag: u8) -> u8 {
    tag % 64
}

/// Whether a tag byte marks the type nullable.
pub open spec fn tag_nullable(tag: u8) -> bool {
    tag / 64 % 2 == 1
}

/// Whether a tag byte is a derivation.
pub open spec fn tag_derived(tag: u8) -> bool {
    tag / 128 == 1
}

/// The tag byte of a literal.
pub open spec fn literal_tag(kind: u8, nullable: bool) -> u8 {
    (kind + if nullable {
        dtype_tag::NULLABLE
    } else {
        0
    }) as u8
}

fn kind_of(tag: u8) -> (kind: u8)
    ensures
        kind == tag_kind(tag),
{
    assert(tag & 0x3f == tag % 64) by (bit_vector);
    tag & dtype_tag::KIND_MASK
}

fn is_nullable(tag: u8) -> (nullable: bool)
    ensures
        nullable == tag_nullable(tag),
{
    assert((tag & 0x40 != 0) == (tag / 64 % 2 == 1)) by (bit_vector);
    tag & dtype_tag::NULLABLE != 0
}

fn is_derived(tag: u8) -> (derived: bool)
    ensures
        derived == tag_derived(tag),
{
    assert((tag & 0x80 != 0) == (tag / 128 == 1)) by (bit_vector);
    tag & dtype_tag::DERIVED != 0
}

/// The logical kind of a [`DTypeView`], as far as the guest distinguishes them.
#[derive(Debug, Clone, Copy, PartialEq, Eq, Structural)]
pub enum DTypeKind {
    /// The logical null type.
    Null,
    /// A boolean.
    Bool,
    /// A fixed-width numeric.
    Primitive(PType),
    /// A fixed-precision decimal: precision and scale.
    Decimal(u8, i8),
    /// A UTF-8 string.
    Utf8,
    /// Binary data.
    Binary,
    /// A variable-length list.
    List,
    /// A fixed-size list of `size` elements.
    FixedSizeList(u32),
    /// A struct with `n` fields.
    Struct(usize),
    /// A union with `n` variants.
    Union(usize),
    /// A dynamically typed value.
    Variant,
    /// A user-defined extension type.
    Extension,
    /// A map from keys to values; `keys_sorted` says whether each entry's keys are sorted.
    Mapping {
        /// Whether keys within each map value are sorted.
        keys_sorted: bool,
    },
}

/// The kind and parameters of the type at the start of `bytes`.
pub open spec fn kind_spec(bytes: Seq<u8>) -> Result<DTypeKind, GuestError> {
    let kind = tag_kind(bytes[0]);
    let payload = bytes.skip(1);
    if kind == dtype_kind::NULL {
        Ok(DTypeKind::Null)
    } else if kind == dtype_kind::BOOL {
        Ok(DTypeKind::Bool)
    } else if kind == dtype_kind::PRIMITIVE {
        if payload.len() < 1 {
            Err(GuestError::of("truncated dtype"))
        } else {
            match PType::of_tag(payload[0] as int) {
                Some(ptype) => Ok(DTypeKind::Primitive(ptype)),
                None => Err(GuestError::of("bad ptype in dtype")),
            }
        }
    } else if kind == dtype_kind::DECIMAL {
        if payload.len() < 2 {
            Err(GuestError::of("truncated decimal dtype"))
        } else {
            Ok(DTypeKind::Decimal(payload[0], payload[1] as i8))
        }
    } else if kind == dtype_kind::UTF8 {
        Ok(DTypeKind::Utf8)
    } else if kind == dtype_kind::BINARY {
        Ok(DTypeKind::Binary)
    } else if kind == dtype_kind::LIST {
        Ok(DTypeKind::List)
    } else if kind == dtype_kind::FIXED_SIZE_LIST {
        match varint(payload, 0) {
            Err(e) => Err(e),
            Ok((size, _)) => if size > u32::MAX {
                Err(GuestError::of("list size overflow"))
            } else {
                Ok(DTypeKind::FixedSizeList(size as u32))
            },
        }
    } else if kind == dtype_kind::STRUCT {
        match varint(payload, 0) {
            Err(e) => Err(e),
            Ok((n, _)) => if n > usize::MAX {
                Err(GuestError::of("field count overflow"))
            } else {
                Ok(DTypeKind::Struct(n as usize))
            },
        }
    } else if kind == dtype_kind::UNION {
        match varint(payload, 0) {
            Err(e) => Err(e),
            Ok((n, _)) => if n > usize::MAX {
                Err(GuestError::of("variant count overflow"))
            } else {
                Ok(DTypeKind::Union(n as usize))
            },
        }
    } else if kind == dtype_kind::VARIANT {
        Ok(DTypeKind::Variant)
    } else if kind == dtype_kind::EXTENSION {
        Ok(DTypeKind::Extension)
    } else if kind == dtype_kind::MAP {
        if payload.len() < 1 {
            Err(GuestError::of("truncated map dtype"))
        } else {
            Ok(DTypeKind::Mapping { keys_sorted: payload[0] != 0 })
        }
    } else {
        Err(GuestError::of("bad dtype kind"))
    }
}

/// The offset just past the length-prefixed blob at `offset`, with the error for a length beyond
/// the address space.
pub open spec fn blob_end(bytes: Seq<u8>, offset: int, too_long: &'static str) -> Result<
    int,
    GuestError,
> {
    match varint(bytes, offset) {
        Err(e) => Err(e),
        Ok((len, n)) => if len > usize::MAX {
            Err(GuestError::of(too_long))
        } else {
            Ok(offset + n + len)
        },
    }
}

/// The encoded length of the type at `offset`, or the first error met while walking it.
pub open spec fn skip_spec(bytes: Seq<u8>, offset: int, depth: int) -> Result<int, GuestError>
    decreases MAX_DEPTH + 1 - depth, 0nat,
{
    if depth > MAX_DEPTH {
        Err(GuestError::of("dtype nested too deeply"))
    } else if offset >= bytes.len() {
        Err(GuestError::of("truncated dtype"))
    } else {
        let kind = tag_kind(bytes[offset]);
        let end = if kind == dtype_kind::NULL || kind == dtype_kind::BOOL || kind
            == dtype_kind::UTF8 || kind == dtype_kind::BINARY || kind == dtype_kind::VARIANT {
            Ok(offset + 1)
        } else if kind == dtype_kind::PRIMITIVE {
            Ok(offset + 2)
        } else if kind == dtype_kind::DECIMAL {
            Ok(offset + 3)
        } else if kind == dtype_kind::LIST {
            skip_to(bytes, offset + 1, depth + 1)
        } else if kind == dtype_kind::FIXED_SIZE_LIST {
            match varint(bytes, offset + 1) {
                Err(e) => Err(e),
                Ok((_, n)) => skip_to(bytes, offset + 1 + n, depth + 1),
            }
        } else if kind == dtype_kind::STRUCT || kind == dtype_kind::UNION {
            match varint(bytes, offset + 1) {
                Err(e) => Err(e),
                Ok((count, n)) => skip_entries(
                    bytes,
                    offset + 1 + n,
                    kind == dtype_kind::UNION,
                    depth + 1,
                    count as nat,
                ),
            }
        } else if kind == dtype_kind::EXTENSION {
            match blob_end(bytes, offset + 1, "extension blob too long") {
                Err(e) => Err(e),
                Ok(after_id) => match blob_end(bytes, after_id, "extension blob too long") {
                    Err(e) => Err(e),
                    Ok(after_metadata) => skip_to(bytes, after_metadata, depth + 1),
                },
            }
        } else if kind == dtype_kind::MAP {
            match skip_to(bytes, offset + 2, depth + 1) {
                Err(e) => Err(e),
                Ok(after_key) => skip_to(bytes, after_key, depth + 1),
            }
        } else {
            Err(GuestError::of("bad dtype kind"))
        };
        match end {
            Err(e) => Err(e),
            Ok(end) => if end > bytes.len() {
                Err(GuestError::of("truncated dtype"))
            } else {
                Ok(end - offset)
            },
        }
    }
}

/// The offset just past the type at `offset`.
pub open spec fn skip_to(bytes: Seq<u8>, offset: int, depth: int) -> Result<int, GuestError>
    decreases MAX_DEPTH + 1 - depth, 1nat,
{
    match skip_spec(bytes, offset, depth) {
        Err(e) => Err(e),
        Ok(len) => Ok(offset + len),
    }
}

/// The offset just past `n` struct or union entries that start at `start`.
pub open spec fn skip_entries(
    bytes: Seq<u8>,
    start: int,
    with_type_ids: bool,
    depth: int,
    n: nat,
) -> Result<int, GuestError>
    decreases MAX_DEPTH + 1 - depth, n + 2,
{
    if n == 0 {
        Ok(start)
    } else {
        match skip_entries(bytes, start, with_type_ids, depth, (n - 1) as nat) {
            Err(e) => Err(e),
            Ok(offset) => match blob_end(bytes, offset, "name too long") {
                Err(e) => Err(e),
                Ok(name_end) => skip_to(
                    bytes,
                    if with_type_ids {
                        name_end + 1
                    } else {
                        name_end
                    },
                    depth,
                ),
            },
        }
    }
}

/// A borrowed, lazily parsed view of an encoded dtype.
///
/// Parsing is on demand: constructing a view validates only the tag byte, and walking into a
/// composite type happens when a caller asks for a field or element.
#[derive(Clone, Copy)]
pub struct DTypeView<'a> {
    bytes: &'a [u8],
}

impl<'a> View for DTypeView<'a> {
    type V = Seq<u8>;

    closed spec fn view(&self) -> Seq<u8> {
        self.bytes@
    }
}

/// What [`DTypeView::new`] makes of `bytes`: the bytes themselves, if they start a literal.
pub open spec fn view_spec(bytes: Seq<u8>) -> Result<Seq<u8>, GuestError> {
    if bytes.len() == 0 {
        Err(GuestError::of("empty dtype"))
    } else if tag_derived(bytes[0]) {
        Err(GuestError::of("unexpected dtype derivation from the host"))
    } else {
        Ok(bytes)
    }
}

impl<'a> DTypeView<'a> {
    #[verifier::type_invariant]
    spec fn wf(self) -> bool {
        self.bytes@.len() > 0 && !tag_derived(self.bytes@[0])
    }

    /// View the encoded dtype at the start of `bytes`.
    ///
    /// The slice may be longer than the type; trailing bytes are ignored, which is what makes a
    /// dtype embeddable in a larger frame. A derivation is refused: the host never writes one.
    pub fn new(bytes: &'a [u8]) -> (result: GuestResult<Self>)
        ensures
            match result {
                Ok(view) => view_spec(bytes@) == Ok::<_, GuestError>(view@),
                Err(e) => view_spec(bytes@) == Err::<Seq<u8>, _>(e),
            },
    {
        if bytes.len() == 0 {
            return Err(GuestError::new("empty dtype"));
        }
        if is_derived(bytes[0]) {
            return Err(GuestError::new("unexpected dtype derivation from the host"));
        }
        Ok(DTypeView { bytes })
    }

    /// Whether the type is nullable.
    pub fn nullable(&self) -> (nullable: bool)
        ensures
            nullable == tag_nullable(self@[0]),
    {
        proof {
            use_type_invariant(&*self);
        }
        is_nullable(self.bytes[0])
    }

    /// The type's kind and parameters.
    pub fn kind(&self) -> (result: GuestResult<DTypeKind>)
        ensures
            result == kind_spec(self@),
    {
        proof {
            use_type_invariant(&*self);
        }
        let payload: &'a [u8] = slice_subrange(self.bytes, 1, self.bytes.len());
        assert(payload@ =~= self@.skip(1));
        let kind: u8 = kind_of(self.bytes[0]);
        if kind == dtype_kind::NULL {
            Ok(DTypeKind::Null)
        } else if kind == dtype_kind::BOOL {
            Ok(DTypeKind::Bool)
        } else if kind == dtype_kind::PRIMITIVE {
            if payload.len() < 1 {
                return Err(GuestError::new("truncated dtype"));
            }
            match PType::from_discriminant(payload[0] as u64) {
                Some(ptype) => Ok(DTypeKind::Primitive(ptype)),
                None => Err(GuestError::new("bad ptype in dtype")),
            }
        } else if kind == dtype_kind::DECIMAL {
            if payload.len() < 2 {
                return Err(GuestError::new("truncated decimal dtype"));
            }
            Ok(DTypeKind::Decimal(payload[0], payload[1] as i8))
        } else if kind == dtype_kind::UTF8 {
            Ok(DTypeKind::Utf8)
        } else if kind == dtype_kind::BINARY {
            Ok(DTypeKind::Binary)
        } else if kind == dtype_kind::LIST {
            Ok(DTypeKind::List)
        } else if kind == dtype_kind::FIXED_SIZE_LIST {
            match read_varint(payload, 0) {
                Err(e) => Err(e),
                Ok((size, _)) => if size > u32::MAX as u64 {
                    Err(GuestError::new("list size overflow"))
                } else {
                    Ok(DTypeKind::FixedSizeList(size as u32))
                },
            }
        } else if kind == dtype_kind::STRUCT {
            match read_varint(payload, 0) {
                Err(e) => Err(e),
                Ok((n, _)) => if n > usize::MAX as u64 {
                    Err(GuestError::new("field count overflow"))
                } else {
                    Ok(DTypeKind::Struct(n as usize))
                },
            }
        } else if kind == dtype_kind::UNION {
            match read_varint(payload, 0) {
                Err(e) => Err(e),
                Ok((n, _)) => if n > usize::MAX as u64 {
                    Err(GuestError::new("variant count overflow"))
                } else {
                    Ok(DTypeKind::Union(n as usize))
                },
            }
        } else if kind == dtype_kind::VARIANT {
            Ok(DTypeKind::Variant)
        } else if kind == dtype_kind::EXTENSION {
            Ok(DTypeKind::Extension)
        } else if kind == dtype_kind::MAP {
            if payload.len() < 1 {
                return Err(GuestError::new("truncated map dtype"));
            }
            Ok(DTypeKind::Mapping { keys_sorted: payload[0] != 0 })
        } else {
            Err(GuestError::new("bad dtype kind"))
        }
    }

    /// The [`PType`] if this is a primitive, else `None`.
    pub fn ptype(&self) -> (ptype: Option<PType>)
        ensures
            ptype == (match kind_spec(self@) {
                Ok(DTypeKind::Primitive(found)) => Some(found),
                _ => None,
            }),
    {
        match self.kind() {
            Ok(DTypeKind::Primitive(ptype)) => Some(ptype),
            _ => None,
        }
    }

    /// The total encoded length of this type in bytes.
    pub fn encoded_len(&self) -> (result: GuestResult<usize>)
        ensures
            match result {
                Ok(len) => skip_spec(self@, 0, 0) == Ok::<_, GuestError>(len as int),
                Err(e) => skip_spec(self@, 0, 0) == Err::<int, _>(e),
            },
    {
        Self::skip(self.bytes, 0, 0)
    }

    /// The encoded length of the type starting at `offset`.
    pub fn skip(bytes: &[u8], offset: usize, depth: usize) -> (result: GuestResult<usize>)
        ensures
            match result {
                Ok(len) => {
                    &&& skip_spec(bytes@, offset as int, depth as int) == Ok::<_, GuestError>(
                        len as int,
                    )
                    &&& 0 < len
                    &&& offset + len <= bytes@.len()
                },
                Err(e) => skip_spec(bytes@, offset as int, depth as int) == Err::<int, _>(e),
            },
        decreases MAX_DEPTH + 1 - depth, 0nat,
    {
        if depth > MAX_DEPTH {
            return Err(GuestError::new("dtype nested too deeply"));
        }
        if offset >= bytes.len() {
            return Err(GuestError::new("truncated dtype"));
        }
        let kind: u8 = kind_of(bytes[offset]);
        let end: usize = if kind == dtype_kind::NULL || kind == dtype_kind::BOOL || kind
            == dtype_kind::UTF8 || kind == dtype_kind::BINARY || kind == dtype_kind::VARIANT {
            offset + 1
        } else if kind == dtype_kind::PRIMITIVE {
            if bytes.len() - offset < 2 {
                return Err(GuestError::new("truncated dtype"));
            }
            offset + 2
        } else if kind == dtype_kind::DECIMAL {
            if bytes.len() - offset < 3 {
                return Err(GuestError::new("truncated dtype"));
            }
            offset + 3
        } else if kind == dtype_kind::LIST {
            match Self::skip(bytes, offset + 1, depth + 1) {
                Err(e) => {
                    return Err(e);
                },
                Ok(len) => offset + 1 + len,
            }
        } else if kind == dtype_kind::FIXED_SIZE_LIST {
            let n: usize = match read_varint(bytes, offset + 1) {
                Err(e) => {
                    return Err(e);
                },
                Ok((_, n)) => n,
            };
            match Self::skip(bytes, offset + 1 + n, depth + 1) {
                Err(e) => {
                    return Err(e);
                },
                Ok(len) => offset + 1 + n + len,
            }
        } else if kind == dtype_kind::STRUCT || kind == dtype_kind::UNION {
            // Identical bodies, except that each union entry carries a one-byte type tag.
            let (count, n): (u64, usize) = match read_varint(bytes, offset + 1) {
                Err(e) => {
                    return Err(e);
                },
                Ok(read) => read,
            };
            match Self::skip_body(
                bytes,
                offset + 1 + n,
                kind == dtype_kind::UNION,
                depth + 1,
                count,
            ) {
                Err(e) => {
                    return Err(e);
                },
                Ok(end) => end,
            }
        } else if kind == dtype_kind::EXTENSION {
            let (id_len, n): (u64, usize) = match read_varint(bytes, offset + 1) {
                Err(e) => {
                    return Err(e);
                },
                Ok(read) => read,
            };
            if id_len > usize::MAX as u64 {
                return Err(GuestError::new("extension blob too long"));
            }
            let after_len: usize = offset + 1 + n;
            if id_len as usize > bytes.len() - after_len {
                // The id ends beyond the bytes, and so does the metadata's length.
                return Err(GuestError::new("truncated dtype varint"));
            }
            let after_id: usize = after_len + id_len as usize;
            let (metadata_len, n): (u64, usize) = match read_varint(bytes, after_id) {
                Err(e) => {
                    return Err(e);
                },
                Ok(read) => read,
            };
            if metadata_len > usize::MAX as u64 {
                return Err(GuestError::new("extension blob too long"));
            }
            let after_len: usize = after_id + n;
            if metadata_len as usize > bytes.len() - after_len {
                proof {
                    lemma_skip_beyond(bytes@, after_len + metadata_len, depth + 1);
                }
                if depth + 1 > MAX_DEPTH {
                    return Err(GuestError::new("dtype nested too deeply"));
                }
                return Err(GuestError::new("truncated dtype"));
            }
            let after_metadata: usize = after_len + metadata_len as usize;
            match Self::skip(bytes, after_metadata, depth + 1) {
                Err(e) => {
                    return Err(e);
                },
                Ok(len) => after_metadata + len,
            }
        } else if kind == dtype_kind::MAP {
            if bytes.len() - offset < 2 {
                proof {
                    lemma_skip_beyond(bytes@, offset + 2, depth + 1);
                }
                if depth + 1 > MAX_DEPTH {
                    return Err(GuestError::new("dtype nested too deeply"));
                }
                return Err(GuestError::new("truncated dtype"));
            }
            let after_key: usize = match Self::skip(bytes, offset + 2, depth + 1) {
                Err(e) => {
                    return Err(e);
                },
                Ok(len) => offset + 2 + len,
            };
            match Self::skip(bytes, after_key, depth + 1) {
                Err(e) => {
                    return Err(e);
                },
                Ok(len) => after_key + len,
            }
        } else {
            return Err(GuestError::new("bad dtype kind"));
        };
        Ok(end - offset)
    }

    /// The offset just past `count` struct or union entries that start at `start`.
    fn skip_body(
        bytes: &[u8],
        start: usize,
        with_type_ids: bool,
        depth: usize,
        count: u64,
    ) -> (result: GuestResult<usize>)
        requires
            start <= bytes@.len(),
            depth <= MAX_DEPTH + 1,
        ensures
            match result {
                Ok(end) => {
                    &&& skip_entries(
                        bytes@,
                        start as int,
                        with_type_ids,
                        depth as int,
                        count as nat,
                    ) == Ok::<_, GuestError>(end as int)
                    &&& start <= end <= bytes@.len()
                },
                Err(e) => skip_entries(
                    bytes@,
                    start as int,
                    with_type_ids,
                    depth as int,
                    count as nat,
                ) == Err::<int, _>(e),
            },
        decreases MAX_DEPTH + 1 - depth, 1nat,
    {
        let mut offset: usize = start;
        let mut i: u64 = 0;
        while i < count
            invariant
                i <= count,
                start <= offset <= bytes@.len(),
                depth <= MAX_DEPTH + 1,
                skip_entries(bytes@, start as int, with_type_ids, depth as int, i as nat) == Ok::<
                    _,
                    GuestError,
                >(offset as int),
            decreases count - i,
        {
            proof {
                lemma_skip_entries_error(
                    bytes@,
                    start as int,
                    with_type_ids,
                    depth as int,
                    (i + 1) as nat,
                    count as nat,
                );
            }
            let (name_len, n): (u64, usize) = match read_varint(bytes, offset) {
                Err(e) => {
                    return Err(e);
                },
                Ok(read) => read,
            };
            if name_len > usize::MAX as u64 {
                return Err(GuestError::new("name too long"));
            }
            let tag_len: usize = if with_type_ids {
                1
            } else {
                0
            };
            assert(bytes.len() <= usize::MAX);
            let name_start: usize = offset + n;
            let room: usize = bytes.len() - name_start;
            if name_len as usize > room || tag_len > room - name_len as usize {
                proof {
                    lemma_skip_beyond(bytes@, name_start + name_len + tag_len, depth as int);
                }
                if depth > MAX_DEPTH {
                    return Err(GuestError::new("dtype nested too deeply"));
                }
                return Err(GuestError::new("truncated dtype"));
            }
            let dtype_start: usize = name_start + name_len as usize + tag_len;
            match Self::skip(bytes, dtype_start, depth) {
                Err(e) => {
                    return Err(e);
                },
                Ok(len) => {
                    offset = dtype_start + len;
                },
            }
            i = i + 1;
        }
        Ok(offset)
    }
}

/// There is no type beyond the end of the bytes.
proof fn lemma_skip_beyond(bytes: Seq<u8>, offset: int, depth: int)
    requires
        offset >= bytes.len(),
    ensures
        skip_to(bytes, offset, depth) == Err::<int, _>(
            if depth > MAX_DEPTH {
                GuestError::of("dtype nested too deeply")
            } else {
                GuestError::of("truncated dtype")
            },
        ),
{
}

/// An error among the first entries is the error of all of them.
proof fn lemma_skip_entries_error(
    bytes: Seq<u8>,
    start: int,
    with_type_ids: bool,
    depth: int,
    k: nat,
    n: nat,
)
    requires
        k <= n,
    ensures
        skip_entries(bytes, start, with_type_ids, depth, k) matches Err(e) ==> skip_entries(
            bytes,
            start,
            with_type_ids,
            depth,
            n,
        ) == Err::<int, _>(e),
    decreases n,
{
    if k < n {
        lemma_skip_entries_error(bytes, start, with_type_ids, depth, k, (n - 1) as nat);
    }
}

/// The element type of a list.
pub open spec fn element_spec(bytes: Seq<u8>) -> Result<Seq<u8>, GuestError> {
    match kind_spec(bytes) {
        Err(e) => Err(e),
        Ok(DTypeKind::List) => view_spec(bytes.skip(1)),
        Ok(DTypeKind::FixedSizeList(_)) => view_spec(
            bytes.skip(1 + varint(bytes.skip(1), 0)->Ok_0.1 as int),
        ),
        Ok(_) => Err(GuestError::of("dtype is not a list")),
    }
}

/// The key type of a map.
pub open spec fn map_key_spec(bytes: Seq<u8>) -> Result<Seq<u8>, GuestError> {
    match kind_spec(bytes) {
        Err(e) => Err(e),
        Ok(DTypeKind::Mapping { .. }) => view_spec(bytes.skip(2)),
        Ok(_) => Err(GuestError::of("dtype is not a map")),
    }
}

/// The value type of a map.
pub open spec fn map_value_spec(bytes: Seq<u8>) -> Result<Seq<u8>, GuestError> {
    match map_key_spec(bytes) {
        Err(e) => Err(e),
        Ok(key) => match skip_spec(key, 0, 0) {
            Err(e) => Err(e),
            Ok(len) => view_spec(bytes.skip(2 + len)),
        },
    }
}

/// The storage type of an extension type.
pub open spec fn storage_spec(bytes: Seq<u8>) -> Result<Seq<u8>, GuestError> {
    let truncated = "truncated extension dtype";
    match kind_spec(bytes) {
        Err(e) => Err(e),
        Ok(DTypeKind::Extension) => match varint(bytes, 1) {
            Err(e) => Err(e),
            Ok((id_len, n)) => {
                let after_id = 1 + n + id_len;
                if after_id > usize::MAX {
                    Err(GuestError::of(truncated))
                } else {
                    match varint(bytes, after_id) {
                        Err(e) => Err(e),
                        Ok((metadata_len, m)) => {
                            let start = after_id + m + metadata_len;
                            if start > bytes.len() {
                                Err(GuestError::of(truncated))
                            } else {
                                view_spec(bytes.skip(start))
                            }
                        },
                    }
                }
            },
        },
        Ok(_) => Err(GuestError::of("dtype is not an extension")),
    }
}

/// The id of an extension type.
pub open spec fn extension_id_spec(bytes: Seq<u8>) -> Result<Seq<u8>, GuestError> {
    match kind_spec(bytes) {
        Err(e) => Err(e),
        Ok(DTypeKind::Extension) => match varint(bytes, 1) {
            Err(e) => Err(e),
            Ok((len, n)) => {
                if len > usize::MAX {
                    Err(GuestError::of("id too long"))
                } else if 1 + n + len > usize::MAX {
                    Err(GuestError::of("truncated extension dtype"))
                } else if 1 + n + len > bytes.len() {
                    Err(GuestError::of("truncated extension id"))
                } else {
                    Ok(bytes.subrange(1 + n as int, 1 + n + len))
                }
            },
        },
        Ok(_) => Err(GuestError::of("dtype is not an extension")),
    }
}

/// The metadata of an extension type.
pub open spec fn extension_metadata_spec(bytes: Seq<u8>) -> Result<Seq<u8>, GuestError> {
    match kind_spec(bytes) {
        Err(e) => Err(e),
        Ok(DTypeKind::Extension) => match blob_end(bytes, 1, "id too long") {
            Err(e) => Err(e),
            Ok(after_id) => match varint(bytes, after_id) {
                Err(e) => Err(e),
                Ok((len, n)) => {
                    let start = after_id + n;
                    if len > usize::MAX {
                        Err(GuestError::of("metadata too long"))
                    } else if start + len > usize::MAX {
                        Err(GuestError::of("truncated extension dtype"))
                    } else if start + len > bytes.len() {
                        Err(GuestError::of("truncated extension metadata"))
                    } else {
                        Ok(bytes.subrange(start, start + len))
                    }
                },
            },
        },
        Ok(_) => Err(GuestError::of("dtype is not an extension")),
    }
}

/// Where the parts of one struct or union entry are.
#[verifier::ext_equal]
pub struct EntryModel {
    /// The entry's name.
    pub name: Seq<u8>,
    /// Its type tag; 0 for a struct.
    pub type_id: u8,
    /// Where its type starts.
    pub dtype_start: int,
}

/// The entry at `offset`.
pub open spec fn entry_at(bytes: Seq<u8>, offset: int, with_type_ids: bool) -> Result<
    EntryModel,
    GuestError,
> {
    match varint(bytes, offset) {
        Err(e) => Err(e),
        Ok((name_len, n)) => {
            let name_start = offset + n;
            let name_end = name_start + name_len;
            if name_len > usize::MAX {
                Err(GuestError::of("name too long"))
            } else if name_end > usize::MAX {
                Err(GuestError::of("truncated dtype entry"))
            } else if name_end > bytes.len() {
                Err(GuestError::of("truncated dtype entry name"))
            } else if with_type_ids && name_end >= bytes.len() {
                Err(GuestError::of("truncated union type tag"))
            } else {
                Ok(
                    EntryModel {
                        name: bytes.subrange(name_start, name_end),
                        type_id: if with_type_ids {
                            bytes[name_end]
                        } else {
                            0
                        },
                        dtype_start: if with_type_ids {
                            name_end + 1
                        } else {
                            name_end
                        },
                    },
                )
            }
        },
    }
}

/// Where entry `index` starts: past the entry count and the entries before it.
pub open spec fn entry_offset(bytes: Seq<u8>, index: nat, with_type_ids: bool) -> Result<
    int,
    GuestError,
>
    decreases index,
{
    if index == 0 {
        match varint(bytes.skip(1), 0) {
            Err(e) => Err(e),
            Ok((_, n)) => Ok(1 + n as int),
        }
    } else {
        match entry_offset(bytes, (index - 1) as nat, with_type_ids) {
            Err(e) => Err(e),
            Ok(offset) => match entry_at(bytes, offset, with_type_ids) {
                Err(e) => Err(e),
                Ok(entry) => skip_to(bytes, entry.dtype_start, 0),
            },
        }
    }
}

/// The name, type tag and type of entry `index` of `count`.
pub open spec fn named_entry_spec(
    bytes: Seq<u8>,
    index: nat,
    count: nat,
    with_type_ids: bool,
) -> Result<(Seq<u8>, u8, Seq<u8>), GuestError> {
    if index >= count {
        Err(GuestError::of("dtype entry index out of bounds"))
    } else {
        match entry_offset(bytes, index, with_type_ids) {
            Err(e) => Err(e),
            Ok(offset) => match entry_at(bytes, offset, with_type_ids) {
                Err(e) => Err(e),
                Ok(entry) => match view_spec(bytes.skip(entry.dtype_start)) {
                    Err(e) => Err(e),
                    Ok(dtype) => Ok((entry.name, entry.type_id, dtype)),
                },
            },
        }
    }
}

/// The name and type of struct field `index`.
pub open spec fn field_spec(bytes: Seq<u8>, index: nat) -> Result<
    (Seq<u8>, Seq<u8>),
    GuestError,
> {
    match kind_spec(bytes) {
        Err(e) => Err(e),
        Ok(DTypeKind::Struct(n)) => match named_entry_spec(bytes, index, n as nat, false) {
            Err(e) => Err(e),
            Ok((name, _, dtype)) => Ok((name, dtype)),
        },
        Ok(_) => Err(GuestError::of("dtype is not a struct")),
    }
}

/// The name, type tag and type of union variant `index`.
pub open spec fn variant_spec(bytes: Seq<u8>, index: nat) -> Result<
    (Seq<u8>, u8, Seq<u8>),
    GuestError,
> {
    match kind_spec(bytes) {
        Err(e) => Err(e),
        Ok(DTypeKind::Union(n)) => named_entry_spec(bytes, index, n as nat, true),
        Ok(_) => Err(GuestError::of("dtype is not a union")),
    }
}

/// An error on the way to an entry is met on the way to every later one.
proof fn lemma_entry_offset_error(bytes: Seq<u8>, with_type_ids: bool, k: nat, n: nat)
    requires
        k <= n,
    ensures
        entry_offset(bytes, k, with_type_ids) matches Err(e) ==> entry_offset(
            bytes,
            n,
            with_type_ids,
        ) == Err::<int, _>(e),
    decreases n,
{
    if k < n {
        lemma_entry_offset_error(bytes, with_type_ids, k, (n - 1) as nat);
    }
}

impl<'a> DTypeView<'a> {
    /// The view of the bytes from `start` on.
    fn from_offset(bytes: &'a [u8], start: usize) -> (result: GuestResult<Self>)
        requires
            start <= bytes@.len(),
        ensures
            match result {
                Ok(view) => view_spec(bytes@.skip(start as int)) == Ok::<_, GuestError>(view@),
                Err(e) => view_spec(bytes@.skip(start as int)) == Err::<Seq<u8>, _>(e),
            },
    {
        let rest: &'a [u8] = slice_subrange(bytes, start, bytes.len());
        assert(rest@ =~= bytes@.skip(start as int));
        Self::new(rest)
    }

    /// The element type of a `List` or `FixedSizeList`.
    pub fn element(&self) -> (result: GuestResult<DTypeView<'a>>)
        ensures
            match result {
                Ok(view) => element_spec(self@) == Ok::<_, GuestError>(view@),
                Err(e) => element_spec(self@) == Err::<Seq<u8>, _>(e),
            },
    {
        proof {
            use_type_invariant(&*self);
        }
        let start: usize = match self.kind() {
            Err(e) => {
                return Err(e);
            },
            Ok(DTypeKind::List) => 1,
            Ok(DTypeKind::FixedSizeList(_)) => {
                let payload: &'a [u8] = slice_subrange(self.bytes, 1, self.bytes.len());
                assert(payload@ =~= self@.skip(1));
                match read_varint(payload, 0) {
                    Err(e) => {
                        return Err(e);
                    },
                    Ok((_, n)) => 1 + n,
                }
            },
            Ok(_) => {
                return Err(GuestError::new("dtype is not a list"));
            },
        };
        Self::from_offset(self.bytes, start)
    }

    /// The key type of a `Map`.
    pub fn map_key(&self) -> (result: GuestResult<DTypeView<'a>>)
        ensures
            match result {
                Ok(view) => map_key_spec(self@) == Ok::<_, GuestError>(view@),
                Err(e) => map_key_spec(self@) == Err::<Seq<u8>, _>(e),
            },
    {
        proof {
            use_type_invariant(&*self);
        }
        match self.kind() {
            Err(e) => Err(e),
            Ok(DTypeKind::Mapping { .. }) => Self::from_offset(self.bytes, 2),
            Ok(_) => Err(GuestError::new("dtype is not a map")),
        }
    }

    /// The value type of a `Map`.
    pub fn map_value(&self) -> (result: GuestResult<DTypeView<'a>>)
        ensures
            match result {
                Ok(view) => map_value_spec(self@) == Ok::<_, GuestError>(view@),
                Err(e) => map_value_spec(self@) == Err::<Seq<u8>, _>(e),
            },
    {
        proof {
            use_type_invariant(&*self);
        }
        let key = match self.map_key() {
            Err(e) => {
                return Err(e);
            },
            Ok(key) => key,
        };
        assert(key@ == self@.skip(2));
        assert(self.bytes.len() <= usize::MAX);
        match Self::skip(key.bytes, 0, 0) {
            Err(e) => Err(e),
            Ok(len) => Self::from_offset(self.bytes, 2 + len),
        }
    }

    /// The storage type of an `Extension`.
    pub fn storage(&self) -> (result: GuestResult<DTypeView<'a>>)
        ensures
            match result {
                Ok(view) => storage_spec(self@) == Ok::<_, GuestError>(view@),
                Err(e) => storage_spec(self@) == Err::<Seq<u8>, _>(e),
            },
    {
        match self.kind() {
            Err(e) => {
                return Err(e);
            },
            Ok(DTypeKind::Extension) => {},
            Ok(_) => {
                return Err(GuestError::new("dtype is not an extension"));
            },
        }
        let (id_len, n): (u64, usize) = match read_varint(self.bytes, 1) {
            Err(e) => {
                return Err(e);
            },
            Ok(read) => read,
        };
        if id_len > usize::MAX as u64 || id_len as usize > usize::MAX - (1 + n) {
            return Err(GuestError::new("truncated extension dtype"));
        }
        let after_id: usize = 1 + n + id_len as usize;
        let (metadata_len, m): (u64, usize) = match read_varint(self.bytes, after_id) {
            Err(e) => {
                return Err(e);
            },
            Ok(read) => read,
        };
        assert(self.bytes.len() <= usize::MAX);
        let after_len: usize = after_id + m;
        if metadata_len > usize::MAX as u64 || metadata_len as usize > self.bytes.len()
            - after_len {
            return Err(GuestError::new("truncated extension dtype"));
        }
        Self::from_offset(self.bytes, after_len + metadata_len as usize)
    }

    /// The extension type's serialized metadata, in the extension's own format.
    pub fn extension_metadata(&self) -> (result: GuestResult<&'a [u8]>)
        ensures
            match result {
                Ok(bytes) => extension_metadata_spec(self@) == Ok::<_, GuestError>(bytes@),
                Err(e) => extension_metadata_spec(self@) == Err::<Seq<u8>, _>(e),
            },
    {
        match self.kind() {
            Err(e) => {
                return Err(e);
            },
            Ok(DTypeKind::Extension) => {},
            Ok(_) => {
                return Err(GuestError::new("dtype is not an extension"));
            },
        }
        let (id_len, n): (u64, usize) = match read_varint(self.bytes, 1) {
            Err(e) => {
                return Err(e);
            },
            Ok(read) => read,
        };
        if id_len > usize::MAX as u64 {
            return Err(GuestError::new("id too long"));
        }
        if id_len as usize > self.bytes.len() - (1 + n) {
            // The id ends beyond the bytes, and so does the metadata's length.
            return Err(GuestError::new("truncated dtype varint"));
        }
        let after_id: usize = 1 + n + id_len as usize;
        let (len, m): (u64, usize) = match read_varint(self.bytes, after_id) {
            Err(e) => {
                return Err(e);
            },
            Ok(read) => read,
        };
        if len > usize::MAX as u64 {
            return Err(GuestError::new("metadata too long"));
        }
        let start: usize = after_id + m;
        if len as usize > usize::MAX - start {
            return Err(GuestError::new("truncated extension dtype"));
        }
        let end: usize = start + len as usize;
        if end > self.bytes.len() {
            return Err(GuestError::new("truncated extension metadata"));
        }
        Ok(slice_subrange(self.bytes, start, end))
    }

    /// The extension type's id, as raw UTF-8 bytes.
    pub fn extension_id(&self) -> (result: GuestResult<&'a [u8]>)
        ensures
            match result {
                Ok(bytes) => extension_id_spec(self@) == Ok::<_, GuestError>(bytes@),
                Err(e) => extension_id_spec(self@) == Err::<Seq<u8>, _>(e),
            },
    {
        match self.kind() {
            Err(e) => {
                return Err(e);
            },
            Ok(DTypeKind::Extension) => {},
            Ok(_) => {
                return Err(GuestError::new("dtype is not an extension"));
            },
        }
        let (len, n): (u64, usize) = match read_varint(self.bytes, 1) {
            Err(e) => {
                return Err(e);
            },
            Ok(read) => read,
        };
        if len > usize::MAX as u64 {
            return Err(GuestError::new("id too long"));
        }
        let start: usize = 1 + n;
        if len as usize > usize::MAX - start {
            return Err(GuestError::new("truncated extension dtype"));
        }
        let end: usize = start + len as usize;
        if end > self.bytes.len() {
            return Err(GuestError::new("truncated extension id"));
        }
        Ok(slice_subrange(self.bytes, start, end))
    }

    /// The name and type of struct field `index`.
    pub fn field(&self, index: usize) -> (result: GuestResult<(&'a [u8], DTypeView<'a>)>)
        ensures
            match result {
                Ok((name, dtype)) => field_spec(self@, index as nat) == Ok::<_, GuestError>(
                    (name@, dtype@),
                ),
                Err(e) => field_spec(self@, index as nat) == Err::<(Seq<u8>, Seq<u8>), _>(e),
            },
    {
        let n: usize = match self.kind() {
            Err(e) => {
                return Err(e);
            },
            Ok(DTypeKind::Struct(n)) => n,
            Ok(_) => {
                return Err(GuestError::new("dtype is not a struct"));
            },
        };
        match self.named_entry(index, n, false) {
            Err(e) => Err(e),
            Ok((name, _, dtype)) => Ok((name, dtype)),
        }
    }

    /// The name, type tag, and type of union variant `index`.
    ///
    /// The tag is what the data uses to select the variant; it is not necessarily `index`.
    pub fn variant(&self, index: usize) -> (result: GuestResult<(&'a [u8], u8, DTypeView<'a>)>)
        ensures
            match result {
                Ok((name, type_id, dtype)) => variant_spec(self@, index as nat) == Ok::<
                    _,
                    GuestError,
                >((name@, type_id, dtype@)),
                Err(e) => variant_spec(self@, index as nat) == Err::<(Seq<u8>, u8, Seq<u8>), _>(e),
            },
    {
        match self.kind() {
            Err(e) => Err(e),
            Ok(DTypeKind::Union(n)) => self.named_entry(index, n, true),
            Ok(_) => Err(GuestError::new("dtype is not a union")),
        }
    }

    /// Entry `index` of a struct or union body: its name, its type tag (0 for a struct), and its
    /// type. Walks the preceding entries, since they are variable-length.
    pub fn named_entry(&self, index: usize, count: usize, with_type_ids: bool) -> (result:
        GuestResult<(&'a [u8], u8, DTypeView<'a>)>)
        ensures
            match result {
                Ok((name, type_id, dtype)) => named_entry_spec(
                    self@,
                    index as nat,
                    count as nat,
                    with_type_ids,
                ) == Ok::<_, GuestError>((name@, type_id, dtype@)),
                Err(e) => named_entry_spec(self@, index as nat, count as nat, with_type_ids)
                    == Err::<(Seq<u8>, u8, Seq<u8>), _>(e),
            },
    {
        proof {
            use_type_invariant(&*self);
        }
        if index >= count {
            return Err(GuestError::new("dtype entry index out of bounds"));
        }
        let bytes: &'a [u8] = self.bytes;
        let payload: &'a [u8] = slice_subrange(bytes, 1, bytes.len());
        assert(payload@ =~= self@.skip(1));
        let mut offset: usize = match read_varint(payload, 0) {
            Err(e) => {
                proof {
                    lemma_entry_offset_error(self@, with_type_ids, 0, index as nat);
                }
                return Err(e);
            },
            Ok((_, n)) => 1 + n,
        };
        let mut i: usize = 0;
        loop
            invariant
                i <= index,
                index < count,
                bytes@ == self@,
                offset <= bytes@.len(),
                entry_offset(self@, i as nat, with_type_ids) == Ok::<_, GuestError>(offset as int),
            decreases index - i,
        {
            proof {
                if i < index {
                    lemma_entry_offset_error(self@, with_type_ids, (i + 1) as nat, index as nat);
                }
            }
            let (name_len, n): (u64, usize) = match read_varint(bytes, offset) {
                Err(e) => {
                    return Err(e);
                },
                Ok(read) => read,
            };
            if name_len > usize::MAX as u64 {
                return Err(GuestError::new("name too long"));
            }
            assert(bytes.len() <= usize::MAX);
            let name_start: usize = offset + n;
            if name_len as usize > usize::MAX - name_start {
                return Err(GuestError::new("truncated dtype entry"));
            }
            let name_end: usize = name_start + name_len as usize;
            if name_end > bytes.len() {
                return Err(GuestError::new("truncated dtype entry name"));
            }
            let name: &'a [u8] = slice_subrange(bytes, name_start, name_end);
            let (type_id, dtype_start): (u8, usize) = if with_type_ids {
                if name_end >= bytes.len() {
                    return Err(GuestError::new("truncated union type tag"));
                }
                (bytes[name_end], name_end + 1)
            } else {
                (0, name_end)
            };
            if i == index {
                return match Self::from_offset(bytes, dtype_start) {
                    Err(e) => Err(e),
                    Ok(dtype) => Ok((name, type_id, dtype)),
                };
            }
            match Self::skip(bytes, dtype_start, 0) {
                Err(e) => {
                    return Err(e);
                },
                Ok(len) => {
                    offset = dtype_start + len;
                },
            }
            i = i + 1;
        }
    }
}

} // verus!
