//! Logical types as trees, and the laws of reading back what was written of one.

use vstd::prelude::*;
use vstd::string::*;

use crate::abi::dtype_kind;
use crate::abi::PType;
use crate::dtype::element_spec;
use crate::dtype::blob_end;
use crate::dtype::entry_at;
use crate::dtype::entry_offset;
use crate::dtype::extension_id_spec;
use crate::dtype::extension_metadata_spec;
use crate::dtype::field_spec;
use crate::dtype::kind_spec;
use crate::dtype::literal_tag;
use crate::dtype::map_key_spec;
use crate::dtype::map_value_spec;
use crate::dtype::named_entry_spec;
use crate::dtype::skip_entries;
use crate::dtype::skip_spec;
use crate::dtype::skip_to;
use crate::dtype::storage_spec;
use crate::dtype::tag_derived;
use crate::dtype::tag_kind;
use crate::dtype::tag_nullable;
use crate::dtype::variant_spec;
use crate::dtype::view_spec;
use crate::dtype::DTypeKind;
use crate::dtype::MAX_DEPTH;
use crate::dtype_expr::blob;
use crate::dtype_expr::struct_body;
use crate::dtype_expr::union_body;
use crate::dtype_expr::DTypeExpr;
use crate::error::GuestError;
use crate::le::lemma_rest;
use crate::le::lemma_split;
use crate::le::stands_at;
use crate::varint::law_varint_round_trip;
use crate::varint::varint;
use crate::varint::varint_bytes;

verus! {

/// One field of a struct or variant of a union.
pub struct TypeEntry {
    /// The entry's name.
    pub name: Seq<u8>,
    /// The tag that selects the variant; unused by structs.
    pub type_id: u8,
    /// The entry's type.
    pub dtype: TypeTree,
}

/// A logical type without its nullability.
pub enum TypeShape {
    /// The logical null type.
    Null,
    /// A boolean.
    Bool,
    /// A fixed-width numeric.
    Primitive(PType),
    /// A decimal of the given precision and scale.
    Decimal(u8, i8),
    /// A UTF-8 string.
    Utf8,
    /// Binary data.
    Binary,
    /// A list of the element type.
    List(Box<TypeTree>),
    /// A fixed-size list: size and element type.
    FixedSizeList(u32, Box<TypeTree>),
    /// A struct.
    Struct(Seq<TypeEntry>),
    /// A union.
    Union(Seq<TypeEntry>),
    /// A dynamically typed value.
    Variant,
    /// An extension type: id, metadata and storage type.
    Extension(Seq<u8>, Seq<u8>, Box<TypeTree>),
    /// A map: whether keys are sorted, key type and value type.
    Mapping(bool, Box<TypeTree>, Box<TypeTree>),
}

/// A logical type.
pub struct TypeTree {
    /// Whether the type is nullable.
    pub nullable: bool,
    /// The type itself.
    pub shape: TypeShape,
}

/// The encoded entries, one after the other.
pub open spec fn encode_entries(entries: Seq<TypeEntry>, with_type_ids: bool) -> Seq<u8>
    decreases entries,
{
    if entries.len() == 0 {
        Seq::empty()
    } else {
        encode_entries(entries.drop_last(), with_type_ids) + blob(entries.last().name) + (
        if with_type_ids {
            seq![entries.last().type_id]
        } else {
            Seq::empty()
        }) + entries.last().dtype.encode()
    }
}

/// Whether every entry's type nests at most `depth` deep and its name is addressable.
pub open spec fn entries_fit(entries: Seq<TypeEntry>, depth: int) -> bool
    decreases entries,
{
    forall|i: int|
        0 <= i < entries.len() ==> (#[trigger] entries[i]).dtype.fits(depth)
            && entries[i].name.len() <= usize::MAX
}

impl TypeTree {
    /// The ABI's number for the kind.
    pub open spec fn kind_tag(self) -> u8 {
        match self.shape {
            TypeShape::Null => dtype_kind::NULL,
            TypeShape::Bool => dtype_kind::BOOL,
            TypeShape::Primitive(_) => dtype_kind::PRIMITIVE,
            TypeShape::Decimal(_, _) => dtype_kind::DECIMAL,
            TypeShape::Utf8 => dtype_kind::UTF8,
            TypeShape::Binary => dtype_kind::BINARY,
            TypeShape::List(_) => dtype_kind::LIST,
            TypeShape::FixedSizeList(_, _) => dtype_kind::FIXED_SIZE_LIST,
            TypeShape::Struct(_) => dtype_kind::STRUCT,
            TypeShape::Union(_) => dtype_kind::UNION,
            TypeShape::Variant => dtype_kind::VARIANT,
            TypeShape::Extension(_, _, _) => dtype_kind::EXTENSION,
            TypeShape::Mapping(_, _, _) => dtype_kind::MAP,
        }
    }

    /// The kind and parameters a reader sees.
    pub open spec fn kind(self) -> DTypeKind {
        match self.shape {
            TypeShape::Null => DTypeKind::Null,
            TypeShape::Bool => DTypeKind::Bool,
            TypeShape::Primitive(ptype) => DTypeKind::Primitive(ptype),
            TypeShape::Decimal(precision, scale) => DTypeKind::Decimal(precision, scale),
            TypeShape::Utf8 => DTypeKind::Utf8,
            TypeShape::Binary => DTypeKind::Binary,
            TypeShape::List(_) => DTypeKind::List,
            TypeShape::FixedSizeList(size, _) => DTypeKind::FixedSizeList(size),
            TypeShape::Struct(entries) => DTypeKind::Struct(entries.len() as usize),
            TypeShape::Union(entries) => DTypeKind::Union(entries.len() as usize),
            TypeShape::Variant => DTypeKind::Variant,
            TypeShape::Extension(_, _, _) => DTypeKind::Extension,
            TypeShape::Mapping(keys_sorted, _, _) => DTypeKind::Mapping { keys_sorted },
        }
    }

    /// What follows the tag byte.
    pub open spec fn payload(self) -> Seq<u8>
        decreases self, 0nat,
    {
        match self.shape {
            TypeShape::Primitive(ptype) => seq![ptype.tag()],
            TypeShape::Decimal(precision, scale) => seq![precision, scale as u8],
            TypeShape::List(element) => element.encode(),
            TypeShape::FixedSizeList(size, element) => varint_bytes(size as nat)
                + element.encode(),
            TypeShape::Struct(entries) => varint_bytes(entries.len()) + encode_entries(
                entries,
                false,
            ),
            TypeShape::Union(entries) => varint_bytes(entries.len()) + encode_entries(
                entries,
                true,
            ),
            TypeShape::Extension(id, metadata, storage) => blob(id) + blob(metadata)
                + storage.encode(),
            TypeShape::Mapping(keys_sorted, key, value) => seq![
                if keys_sorted {
                    1u8
                } else {
                    0u8
                },
            ] + key.encode() + value.encode(),
            _ => Seq::empty(),
        }
    }

    /// The encoded type.
    pub open spec fn encode(self) -> Seq<u8>
        decreases self, 1nat,
    {
        seq![literal_tag(self.kind_tag(), self.nullable)] + self.payload()
    }

    /// Whether the type nests at most `depth` deep and every count and length in it is
    /// addressable.
    pub open spec fn fits(self, depth: int) -> bool
        decreases self,
    {
        &&& 0 <= depth
        &&& match self.shape {
            TypeShape::List(element) => element.fits(depth - 1),
            TypeShape::FixedSizeList(_, element) => element.fits(depth - 1),
            TypeShape::Struct(entries) => entries.len() <= usize::MAX && entries_fit(
                entries,
                depth - 1,
            ),
            TypeShape::Union(entries) => entries.len() <= usize::MAX && entries_fit(
                entries,
                depth - 1,
            ),
            TypeShape::Extension(id, metadata, storage) => id.len() <= usize::MAX && metadata.len()
                <= usize::MAX && storage.fits(depth - 1),
            TypeShape::Mapping(_, key, value) => key.fits(depth - 1) && value.fits(depth - 1),
            _ => true,
        }
    }
}

/// The tag byte of a literal says its kind and nullability, and is no derivation.
proof fn lemma_literal_tag(kind: u8, nullable: bool)
    requires
        kind < 64,
    ensures
        tag_kind(literal_tag(kind, nullable)) == kind,
        tag_nullable(literal_tag(kind, nullable)) == nullable,
        !tag_derived(literal_tag(kind, nullable)),
{
}

/// A blob is skipped to its end.
proof fn lemma_blob(bytes: Seq<u8>, offset: int, content: Seq<u8>, too_long: &'static str)
    requires
        stands_at(bytes, offset, blob(content)),
        content.len() <= usize::MAX,
    ensures
        varint(bytes, offset) == Ok::<_, GuestError>(
            (content.len() as u64, varint_bytes(content.len()).len()),
        ),
        stands_at(bytes, offset + varint_bytes(content.len()).len(), content),
        blob_end(bytes, offset, too_long) == Ok::<_, GuestError>(offset + blob(content).len()),
{
    lemma_split(bytes, offset, varint_bytes(content.len()), content);
    law_varint_round_trip(bytes, offset, content.len() as u64);
}

/// Walking over an encoded type takes exactly its bytes.
#[verifier::rlimit(30)]
pub proof fn law_skip(tree: TypeTree, bytes: Seq<u8>, offset: int, depth: int)
    requires
        0 <= depth,
        tree.fits(MAX_DEPTH - depth),
        stands_at(bytes, offset, tree.encode()),
    ensures
        skip_spec(bytes, offset, depth) == Ok::<_, GuestError>(tree.encode().len() as int),
        skip_to(bytes, offset, depth) == Ok::<_, GuestError>(offset + tree.encode().len()),
    decreases tree,
{
    let tag = seq![literal_tag(tree.kind_tag(), tree.nullable)];
    lemma_split(bytes, offset, tag, tree.payload());
    assert(bytes[offset] == bytes.subrange(offset, offset + 1)[0]);
    lemma_literal_tag(tree.kind_tag(), tree.nullable);
    let at = offset + 1;
    match tree.shape {
        TypeShape::List(element) => {
            law_skip(*element, bytes, at, depth + 1);
        },
        TypeShape::FixedSizeList(size, element) => {
            lemma_split(bytes, at, varint_bytes(size as nat), element.encode());
            law_varint_round_trip(bytes, at, size as u64);
            law_skip(*element, bytes, at + varint_bytes(size as nat).len(), depth + 1);
        },
        TypeShape::Struct(entries) => {
            lemma_split(bytes, at, varint_bytes(entries.len()), encode_entries(entries, false));
            law_varint_round_trip(bytes, at, entries.len() as u64);
            lemma_skip_entries(
                entries,
                false,
                bytes,
                at + varint_bytes(entries.len()).len(),
                depth + 1,
            );
        },
        TypeShape::Union(entries) => {
            lemma_split(bytes, at, varint_bytes(entries.len()), encode_entries(entries, true));
            law_varint_round_trip(bytes, at, entries.len() as u64);
            lemma_skip_entries(
                entries,
                true,
                bytes,
                at + varint_bytes(entries.len()).len(),
                depth + 1,
            );
        },
        TypeShape::Extension(id, metadata, storage) => {
            lemma_split(bytes, at, blob(id) + blob(metadata), storage.encode());
            lemma_split(bytes, at, blob(id), blob(metadata));
            lemma_blob(bytes, at, id, "extension blob too long");
            lemma_blob(bytes, at + blob(id).len(), metadata, "extension blob too long");
            law_skip(*storage, bytes, at + blob(id).len() + blob(metadata).len(), depth + 1);
        },
        TypeShape::Mapping(keys_sorted, key, value) => {
            let sorted = seq![if keys_sorted { 1u8 } else { 0u8 }];
            lemma_split(bytes, at, sorted + key.encode(), value.encode());
            lemma_split(bytes, at, sorted, key.encode());
            law_skip(*key, bytes, at + 1, depth + 1);
            law_skip(*value, bytes, at + 1 + key.encode().len(), depth + 1);
        },
        _ => {},
    }
}

/// Walking over encoded entries takes exactly their bytes.
proof fn lemma_skip_entries(
    entries: Seq<TypeEntry>,
    with_type_ids: bool,
    bytes: Seq<u8>,
    start: int,
    depth: int,
)
    requires
        0 <= depth,
        entries_fit(entries, MAX_DEPTH - depth),
        stands_at(bytes, start, encode_entries(entries, with_type_ids)),
    ensures
        skip_entries(bytes, start, with_type_ids, depth, entries.len()) == Ok::<_, GuestError>(
            start + encode_entries(entries, with_type_ids).len(),
        ),
    decreases entries,
{
    if entries.len() > 0 {
        let front = entries.drop_last();
        let last = entries.last();
        let ids = if with_type_ids {
            seq![last.type_id]
        } else {
            Seq::empty()
        };
        let before = encode_entries(front, with_type_ids);
        assert(entries[entries.len() - 1] == last);
        assert(last.dtype.fits(MAX_DEPTH - depth) && last.name.len() <= usize::MAX);
        assert forall|i: int| 0 <= i < front.len() implies (#[trigger] front[i]).dtype.fits(
            MAX_DEPTH - depth,
        ) && front[i].name.len() <= usize::MAX by {
            assert(front[i] == entries[i]);
        }
        lemma_split(bytes, start, before + blob(last.name) + ids, last.dtype.encode());
        lemma_split(bytes, start, before + blob(last.name), ids);
        lemma_split(bytes, start, before, blob(last.name));
        lemma_skip_entries(front, with_type_ids, bytes, start, depth);
        let at = start + before.len();
        lemma_blob(bytes, at, last.name, "name too long");
        law_skip(last.dtype, bytes, at + blob(last.name).len() + ids.len(), depth);
    }
}

/// A reader of an encoded type sees its kind, its parameters and its nullability.
pub proof fn law_kind(tree: TypeTree, bytes: Seq<u8>)
    requires
        stands_at(bytes, 0, tree.encode()),
        tree.shape matches TypeShape::Struct(entries) ==> entries.len() <= usize::MAX,
        tree.shape matches TypeShape::Union(entries) ==> entries.len() <= usize::MAX,
    ensures
        view_spec(bytes) == Ok::<_, GuestError>(bytes),
        kind_spec(bytes) == Ok::<_, GuestError>(tree.kind()),
        tag_nullable(bytes[0]) == tree.nullable,
        tree.shape matches TypeShape::FixedSizeList(size, _) ==> varint(bytes.skip(1), 0) == Ok::<
            _,
            GuestError,
        >((size as u64, varint_bytes(size as nat).len())),
{
    let tag = seq![literal_tag(tree.kind_tag(), tree.nullable)];
    lemma_split(bytes, 0, tag, tree.payload());
    assert(bytes[0] == bytes.subrange(0, 1)[0]);
    lemma_literal_tag(tree.kind_tag(), tree.nullable);
    let payload = bytes.skip(1);
    let written = tree.payload();
    assert(payload.subrange(0, written.len() as int) =~= bytes.subrange(
        1,
        1 + written.len() as int,
    ));
    match tree.shape {
        TypeShape::Primitive(ptype) => {
            ptype.lemma_tag_round_trip();
            assert(payload[0] == written[0]);
        },
        TypeShape::Decimal(precision, scale) => {
            assert(payload[0] == written[0] && payload[1] == written[1]);
            assert((scale as u8) as i8 == scale) by (bit_vector);
        },
        TypeShape::FixedSizeList(size, element) => {
            lemma_split(payload, 0, varint_bytes(size as nat), element.encode());
            law_varint_round_trip(payload, 0, size as u64);
        },
        TypeShape::Struct(entries) => {
            lemma_split(payload, 0, varint_bytes(entries.len()), encode_entries(entries, false));
            law_varint_round_trip(payload, 0, entries.len() as u64);
        },
        TypeShape::Union(entries) => {
            lemma_split(payload, 0, varint_bytes(entries.len()), encode_entries(entries, true));
            law_varint_round_trip(payload, 0, entries.len() as u64);
        },
        TypeShape::Mapping(keys_sorted, key, value) => {
            assert(payload[0] == written[0]);
        },
        _ => {},
    }
}

/// A reader finds the element type of a list where it was written.
pub proof fn law_element(tree: TypeTree, bytes: Seq<u8>)
    requires
        stands_at(bytes, 0, tree.encode()),
        tree.shape is List || tree.shape is FixedSizeList,
    ensures
        ({
            let element = match tree.shape {
                TypeShape::List(element) => *element,
                TypeShape::FixedSizeList(_, element) => *element,
                _ => arbitrary(),
            };
            element_spec(bytes) matches Ok(rest) && stands_at(rest, 0, element.encode())
        }),
{
    let tag = seq![literal_tag(tree.kind_tag(), tree.nullable)];
    law_kind(tree, bytes);
    lemma_split(bytes, 0, tag, tree.payload());
    match tree.shape {
        TypeShape::List(element) => {
            lemma_rest(bytes, 1, element.encode());
            lemma_starts_literal(*element, bytes.skip(1));
        },
        TypeShape::FixedSizeList(size, element) => {
            lemma_split(bytes, 1, varint_bytes(size as nat), element.encode());
            let at = 1 + varint_bytes(size as nat).len() as int;
            lemma_rest(bytes, at, element.encode());
            lemma_starts_literal(*element, bytes.skip(at));
        },
        _ => {},
    }
}

/// An encoded type is viewable.
proof fn lemma_starts_literal(tree: TypeTree, bytes: Seq<u8>)
    requires
        stands_at(bytes, 0, tree.encode()),
    ensures
        view_spec(bytes) == Ok::<_, GuestError>(bytes),
{
    let tag = seq![literal_tag(tree.kind_tag(), tree.nullable)];
    lemma_split(bytes, 0, tag, tree.payload());
    assert(bytes[0] == bytes.subrange(0, 1)[0]);
    lemma_literal_tag(tree.kind_tag(), tree.nullable);
}

/// A reader finds the key and value types of a map where they were written. It walks over the key
/// type, which may nest as deep as types may; the value type may nest to any depth.
pub proof fn law_map(tree: TypeTree, bytes: Seq<u8>)
    requires
        stands_at(bytes, 0, tree.encode()),
        tree.shape matches TypeShape::Mapping(_, key, _) ==> key.fits(MAX_DEPTH as int),
    ensures
        tree.shape matches TypeShape::Mapping(_, key, value) ==> {
            &&& map_key_spec(bytes) matches Ok(rest) && stands_at(rest, 0, key.encode())
            &&& map_value_spec(bytes) matches Ok(rest) && stands_at(rest, 0, value.encode())
        },
{
    if let TypeShape::Mapping(keys_sorted, key, value) = tree.shape {
        let tag = seq![literal_tag(tree.kind_tag(), tree.nullable)];
        law_kind(tree, bytes);
        lemma_split(bytes, 0, tag, tree.payload());
        let sorted = seq![if keys_sorted { 1u8 } else { 0u8 }];
        lemma_split(bytes, 1, sorted + key.encode(), value.encode());
        lemma_split(bytes, 1, sorted, key.encode());
        lemma_rest(bytes, 2, key.encode());
        lemma_starts_literal(*key, bytes.skip(2));
        law_skip(*key, bytes.skip(2), 0, 0);
        let at = 2 + key.encode().len() as int;
        lemma_rest(bytes, at, value.encode());
        lemma_starts_literal(*value, bytes.skip(at));
    }
}

/// Whether the types before `index` nest as deep as types may, or less.
pub open spec fn earlier_fit(entries: Seq<TypeEntry>, index: int) -> bool {
    forall|i: int|
        0 <= i < index && i < entries.len() ==> (#[trigger] entries[i]).dtype.fits(
            MAX_DEPTH as int,
        )
}

/// Every entry takes up a byte at least.
proof fn lemma_entries_len(entries: Seq<TypeEntry>, with_type_ids: bool)
    ensures
        entries.len() <= encode_entries(entries, with_type_ids).len(),
    decreases entries.len(),
{
    if entries.len() > 0 {
        lemma_entries_len(entries.drop_last(), with_type_ids);
        assert(entries.last().dtype.encode().len() > 0);
    }
}

/// A reader finds the id, the metadata and the storage type of an extension type where they were
/// written.
pub proof fn law_extension(tree: TypeTree, bytes: Seq<u8>)
    requires
        stands_at(bytes, 0, tree.encode()),
        bytes.len() <= usize::MAX,
    ensures
        tree.shape matches TypeShape::Extension(id, metadata, storage) ==> {
            &&& extension_id_spec(bytes) == Ok::<_, GuestError>(id)
            &&& extension_metadata_spec(bytes) == Ok::<_, GuestError>(metadata)
            &&& storage_spec(bytes) matches Ok(rest) && stands_at(rest, 0, storage.encode())
        },
{
    if let TypeShape::Extension(id, metadata, storage) = tree.shape {
        let tag = seq![literal_tag(tree.kind_tag(), tree.nullable)];
        law_kind(tree, bytes);
        lemma_split(bytes, 0, tag, tree.payload());
        lemma_split(bytes, 1, blob(id) + blob(metadata), storage.encode());
        lemma_split(bytes, 1, blob(id), blob(metadata));
        let after_id = 1 + blob(id).len() as int;
        let start = after_id + blob(metadata).len();
        assert(blob(id).len() >= id.len() && blob(metadata).len() >= metadata.len());
        lemma_blob(bytes, 1, id, "id too long");
        lemma_blob(bytes, after_id, metadata, "metadata too long");
        lemma_rest(bytes, start, storage.encode());
        lemma_starts_literal(*storage, bytes.skip(start));
    }
}

/// The entries before `index` are walked over exactly, and the entry itself is found.
proof fn lemma_entry(
    entries: Seq<TypeEntry>,
    with_type_ids: bool,
    bytes: Seq<u8>,
    start: int,
    index: int,
)
    requires
        0 <= index < entries.len(),
        bytes.len() <= usize::MAX,
        0 < bytes.len(),
        earlier_fit(entries, index),
        varint(bytes.skip(1), 0) matches Ok((_, n)) && start == 1 + n,
        stands_at(bytes, start, encode_entries(entries, with_type_ids)),
    ensures
        entry_offset(bytes, index as nat, with_type_ids) == Ok::<_, GuestError>(
            start + encode_entries(entries.take(index), with_type_ids).len(),
        ),
        entry_at(
            bytes,
            start + encode_entries(entries.take(index), with_type_ids).len(),
            with_type_ids,
        ) matches Ok(entry) && entry.name == entries[index].name && entry.type_id == (
        if with_type_ids {
            entries[index].type_id
        } else {
            0
        }) && stands_at(bytes, entry.dtype_start, entries[index].dtype.encode())
            && entry.dtype_start + entries[index].dtype.encode().len() == start + encode_entries(
            entries.take(index + 1),
            with_type_ids,
        ).len(),
    decreases index,
{
    lemma_entries_prefix(entries, with_type_ids, bytes, start, index + 1);
    let upto = entries.take(index + 1);
    let front = upto.drop_last();
    let last = upto.last();
    assert(front =~= entries.take(index));
    assert(last == entries[index]);
    let ids = if with_type_ids {
        seq![last.type_id]
    } else {
        Seq::empty()
    };
    let before = encode_entries(front, with_type_ids);
    lemma_split(bytes, start, before + blob(last.name) + ids, last.dtype.encode());
    lemma_split(bytes, start, before + blob(last.name), ids);
    lemma_split(bytes, start, before, blob(last.name));
    let at = start + before.len();
    assert(blob(last.name).len() >= last.name.len());
    lemma_blob(bytes, at, last.name, "name too long");
    let name_end = at + blob(last.name).len();
    if with_type_ids {
        assert(bytes[name_end] == bytes.subrange(name_end, name_end + 1)[0]);
    }
    if index > 0 {
        lemma_entry(entries, with_type_ids, bytes, start, index - 1);
        let previous = entry_at(
            bytes,
            start + encode_entries(entries.take(index - 1), with_type_ids).len(),
            with_type_ids,
        )->Ok_0;
        assert(entries[index - 1].dtype.fits(MAX_DEPTH as int));
        law_skip(entries[index - 1].dtype, bytes, previous.dtype_start, 0);
    } else {
        assert(entries.take(0) =~= Seq::empty());
    }
}

/// The first entries stand where all of them do.
proof fn lemma_entries_prefix(
    entries: Seq<TypeEntry>,
    with_type_ids: bool,
    bytes: Seq<u8>,
    start: int,
    k: int,
)
    requires
        0 <= k <= entries.len(),
        stands_at(bytes, start, encode_entries(entries, with_type_ids)),
    ensures
        stands_at(bytes, start, encode_entries(entries.take(k), with_type_ids)),
    decreases entries.len() - k,
{
    if k < entries.len() {
        lemma_entries_prefix(entries, with_type_ids, bytes, start, k + 1);
        let upto = entries.take(k + 1);
        assert(upto.drop_last() =~= entries.take(k));
        let before = encode_entries(entries.take(k), with_type_ids);
        let ids = if with_type_ids {
            seq![upto.last().type_id]
        } else {
            Seq::empty()
        };
        let rest = blob(upto.last().name) + ids + upto.last().dtype.encode();
        assert(encode_entries(upto, with_type_ids) =~= before + rest);
        lemma_split(bytes, start, before, rest);
    } else {
        assert(entries.take(k) =~= entries);
    }
}

/// A reader finds every field of a struct, by its position, with its name and its type. It walks
/// over the types of the fields before, which may nest as deep as types may.
pub proof fn law_field(tree: TypeTree, bytes: Seq<u8>, index: nat)
    requires
        stands_at(bytes, 0, tree.encode()),
        tree.shape matches TypeShape::Struct(entries) ==> earlier_fit(entries, index as int),
        bytes.len() <= usize::MAX,
    ensures
        tree.shape matches TypeShape::Struct(entries) ==> index < entries.len() ==> {
            field_spec(bytes, index) matches Ok((name, rest)) && name == entries[index as int].name
                && stands_at(rest, 0, entries[index as int].dtype.encode())
        },
{
    if let TypeShape::Struct(entries) = tree.shape {
        if index < entries.len() {
            lemma_named_entry(tree, entries, false, bytes, index);
        }
    }
}

/// A reader finds every variant of a union, by its position, with its name, its tag and its type.
/// It walks over the types of the variants before, which may nest as deep as types may.
pub proof fn law_variant(tree: TypeTree, bytes: Seq<u8>, index: nat)
    requires
        stands_at(bytes, 0, tree.encode()),
        tree.shape matches TypeShape::Union(entries) ==> earlier_fit(entries, index as int),
        bytes.len() <= usize::MAX,
    ensures
        tree.shape matches TypeShape::Union(entries) ==> index < entries.len() ==> {
            variant_spec(bytes, index) matches Ok((name, type_id, rest)) && name
                == entries[index as int].name && type_id == entries[index as int].type_id
                && stands_at(rest, 0, entries[index as int].dtype.encode())
        },
{
    if let TypeShape::Union(entries) = tree.shape {
        if index < entries.len() {
            lemma_named_entry(tree, entries, true, bytes, index);
        }
    }
}

proof fn lemma_named_entry(
    tree: TypeTree,
    entries: Seq<TypeEntry>,
    with_type_ids: bool,
    bytes: Seq<u8>,
    index: nat,
)
    requires
        stands_at(bytes, 0, tree.encode()),
        earlier_fit(entries, index as int),
        bytes.len() <= usize::MAX,
        index < entries.len(),
        tree.shape == (if with_type_ids {
            TypeShape::Union(entries)
        } else {
            TypeShape::Struct(entries)
        }),
    ensures
        named_entry_spec(bytes, index, entries.len(), with_type_ids) matches Ok(
            (name, type_id, rest),
        ) && name == entries[index as int].name && type_id == (if with_type_ids {
            entries[index as int].type_id
        } else {
            0
        }) && stands_at(rest, 0, entries[index as int].dtype.encode()),
        kind_spec(bytes) == Ok::<_, GuestError>(tree.kind()),
        entries.len() <= usize::MAX,
{
    let tag = seq![literal_tag(tree.kind_tag(), tree.nullable)];
    lemma_split(bytes, 0, tag, tree.payload());
    lemma_split(
        bytes,
        1,
        varint_bytes(entries.len()),
        encode_entries(entries, with_type_ids),
    );
    lemma_entries_len(entries, with_type_ids);
    law_kind(tree, bytes);
    lemma_rest(bytes, 1, varint_bytes(entries.len()));
    law_varint_round_trip(bytes.skip(1), 0, entries.len() as u64);
    let start = 1 + varint_bytes(entries.len()).len() as int;
    lemma_entry(entries, with_type_ids, bytes, start, index as int);
    let offset = start + encode_entries(entries.take(index as int), with_type_ids).len();
    let entry = entry_at(bytes, offset, with_type_ids)->Ok_0;
    lemma_rest(bytes, entry.dtype_start, entries[index as int].dtype.encode());
    lemma_starts_literal(entries[index as int].dtype, bytes.skip(entry.dtype_start));
}

/// A struct expression over literal fields is the literal of the struct type.
pub proof fn law_struct_expr(fields: Seq<(&'static str, DTypeExpr)>, entries: Seq<TypeEntry>)
    requires
        fields.len() == entries.len(),
        forall|i: int|
            0 <= i < fields.len() ==> (#[trigger] fields[i]).0.spec_bytes() == entries[i].name
                && fields[i].1@ == entries[i].dtype.encode(),
    ensures
        struct_body(fields) == encode_entries(entries, false),
    decreases fields.len(),
{
    if fields.len() > 0 {
        assert forall|i: int| 0 <= i < fields.drop_last().len() implies (
        #[trigger] fields.drop_last()[i]).0.spec_bytes() == entries.drop_last()[i].name
            && fields.drop_last()[i].1@ == entries.drop_last()[i].dtype.encode() by {
            assert(fields.drop_last()[i] == fields[i]);
        }
        law_struct_expr(fields.drop_last(), entries.drop_last());
        assert(fields[fields.len() - 1] == fields.last());
        assert(struct_body(fields) =~= encode_entries(entries, false));
    }
}

/// A union expression over literal variants is the literal of the union type.
pub proof fn law_union_expr(variants: Seq<(&'static str, u8, DTypeExpr)>, entries: Seq<TypeEntry>)
    requires
        variants.len() == entries.len(),
        forall|i: int|
            0 <= i < variants.len() ==> (#[trigger] variants[i]).0.spec_bytes() == entries[i].name
                && variants[i].1 == entries[i].type_id && variants[i].2@
                == entries[i].dtype.encode(),
    ensures
        union_body(variants) == encode_entries(entries, true),
    decreases variants.len(),
{
    if variants.len() > 0 {
        assert forall|i: int| 0 <= i < variants.drop_last().len() implies (
        #[trigger] variants.drop_last()[i]).0.spec_bytes() == entries.drop_last()[i].name
            && variants.drop_last()[i].1 == entries.drop_last()[i].type_id
            && variants.drop_last()[i].2@ == entries.drop_last()[i].dtype.encode() by {
            assert(variants.drop_last()[i] == variants[i]);
        }
        law_union_expr(variants.drop_last(), entries.drop_last());
        assert(variants[variants.len() - 1] == variants.last());
    }
}

/// What an expression builder writes of a type is the literal of that type, given that what it was
/// handed of the types inside is the literal of those.
pub proof fn law_literal_expr(tree: TypeTree)
    ensures
        match tree.shape {
            TypeShape::Primitive(ptype) => tree.encode() == seq![
                literal_tag(dtype_kind::PRIMITIVE, tree.nullable),
                ptype.tag(),
            ],
            TypeShape::Decimal(precision, scale) => tree.encode() == seq![
                literal_tag(dtype_kind::DECIMAL, tree.nullable),
                precision,
                scale as u8,
            ],
            TypeShape::List(element) => tree.encode() == seq![
                literal_tag(dtype_kind::LIST, tree.nullable),
            ] + element.encode(),
            TypeShape::FixedSizeList(size, element) => tree.encode() == seq![
                literal_tag(dtype_kind::FIXED_SIZE_LIST, tree.nullable),
            ] + varint_bytes(size as nat) + element.encode(),
            TypeShape::Struct(entries) => tree.encode() == seq![
                literal_tag(dtype_kind::STRUCT, tree.nullable),
            ] + varint_bytes(entries.len()) + encode_entries(entries, false),
            TypeShape::Union(entries) => tree.encode() == seq![
                literal_tag(dtype_kind::UNION, tree.nullable),
            ] + varint_bytes(entries.len()) + encode_entries(entries, true),
            TypeShape::Extension(id, metadata, storage) => tree.encode() == seq![
                literal_tag(dtype_kind::EXTENSION, tree.nullable),
            ] + blob(id) + blob(metadata) + storage.encode(),
            TypeShape::Mapping(keys_sorted, key, value) => tree.encode() == seq![
                literal_tag(dtype_kind::MAP, tree.nullable),
                if keys_sorted {
                    1u8
                } else {
                    0u8
                },
            ] + key.encode() + value.encode(),
            _ => tree.encode() == seq![literal_tag(tree.kind_tag(), tree.nullable)],
        },
{
    let tag = seq![literal_tag(tree.kind_tag(), tree.nullable)];
    match tree.shape {
        TypeShape::Primitive(ptype) => {
            assert(tag + seq![ptype.tag()] =~= seq![tag[0], ptype.tag()]);
        },
        TypeShape::Decimal(precision, scale) => {
            assert(tag + seq![precision, scale as u8] =~= seq![tag[0], precision, scale as u8]);
        },
        TypeShape::FixedSizeList(size, element) => {
            let count = varint_bytes(size as nat);
            assert(tag + (count + element.encode()) =~= tag + count + element.encode());
        },
        TypeShape::Struct(entries) => {
            let (count, body) = (varint_bytes(entries.len()), encode_entries(entries, false));
            assert(tag + (count + body) =~= tag + count + body);
        },
        TypeShape::Union(entries) => {
            let (count, body) = (varint_bytes(entries.len()), encode_entries(entries, true));
            assert(tag + (count + body) =~= tag + count + body);
        },
        TypeShape::Extension(id, metadata, storage) => {
            let (first, second) = (blob(id), blob(metadata));
            assert(tag + (first + second + storage.encode()) =~= tag + first + second
                + storage.encode());
        },
        TypeShape::Mapping(keys_sorted, key, value) => {
            let sorted = if keys_sorted {
                1u8
            } else {
                0u8
            };
            assert(tag + (seq![sorted] + key.encode() + value.encode()) =~= seq![tag[0], sorted]
                + key.encode() + value.encode());
        },
        TypeShape::List(_) => {},
        _ => {
            assert(tree.payload() =~= Seq::empty());
            assert(tag + Seq::<u8>::empty() =~= tag);
        },
    }
}

} // verus!
