//! Type expressions a guest writes to name a child's dtype.

use vstd::prelude::*;
use vstd::string::*;

use crate::abi::dtype_derivation;
use crate::abi::dtype_kind;
use crate::abi::dtype_tag;
use crate::abi::PType;
use crate::dtype::literal_tag;
use crate::le::push_bytes;
use crate::varint::law_varint_round_trip;
use crate::varint::varint;
use crate::varint::varint_bytes;
use crate::varint::write_varint;

verus! {

/// A type expression the guest writes to name a child's dtype.
///
/// Every dtype has a literal spelling here, extension types included. Still, prefer the
/// derivations ([`Self::parent`], [`Self::field`], ...) wherever the kernel does not genuinely
/// need to know the type: a kernel that derives is automatically generic over every dtype.
pub struct DTypeExpr {
    bytes: Vec<u8>,
}

impl View for DTypeExpr {
    type V = Seq<u8>;

    closed spec fn view(&self) -> Seq<u8> {
        self.bytes@
    }
}

/// The tag byte of a derivation.
pub open spec fn derived_tag(op: u8) -> u8 {
    (op + dtype_tag::DERIVED) as u8
}

/// A length-prefixed blob.
pub open spec fn blob(bytes: Seq<u8>) -> Seq<u8> {
    varint_bytes(bytes.len()) + bytes
}

/// The body of a struct: its fields one after the other.
pub open spec fn struct_body(fields: Seq<(&'static str, DTypeExpr)>) -> Seq<u8>
    decreases fields.len(),
{
    if fields.len() == 0 {
        Seq::empty()
    } else {
        let (name, dtype) = fields.last();
        struct_body(fields.drop_last()) + blob(name.spec_bytes()) + dtype@
    }
}

/// The body of a union: its variants one after the other.
pub open spec fn union_body(variants: Seq<(&'static str, u8, DTypeExpr)>) -> Seq<u8>
    decreases variants.len(),
{
    if variants.len() == 0 {
        Seq::empty()
    } else {
        let (name, type_id, dtype) = variants.last();
        union_body(variants.drop_last()) + blob(name.spec_bytes()) + seq![type_id] + dtype@
    }
}

/// Append a length-prefixed blob.
fn push_blob(out: &mut Vec<u8>, bytes: &[u8])
    ensures
        final(out)@ == old(out)@ + blob(bytes@),
{
    write_varint(out, bytes.len() as u64);
    push_bytes(out, bytes);
    assert(out@ =~= old(out)@ + blob(bytes@));
}

impl DTypeExpr {
    /// The parent node's own dtype.
    ///
    /// A kernel that only re-arranges its parent's values names its values child this way and is
    /// thereby generic over every dtype.
    pub fn parent() -> (expr: Self)
        ensures
            expr@ == seq![derived_tag(dtype_derivation::PARENT)],
            expr@ == seq![0x80u8],
    {
        let mut bytes: Vec<u8> = Vec::new();
        bytes.push(dtype_tag::DERIVED + dtype_derivation::PARENT);
        let expr = DTypeExpr { bytes };
        assert(expr@ =~= seq![derived_tag(dtype_derivation::PARENT)]);
        expr
    }

    fn literal(kind: u8, nullable: bool) -> (expr: Self)
        requires
            kind < 64,
        ensures
            expr@ == seq![literal_tag(kind, nullable)],
    {
        let mut bytes: Vec<u8> = Vec::new();
        bytes.push(
            kind + if nullable {
                dtype_tag::NULLABLE
            } else {
                0
            },
        );
        let expr = DTypeExpr { bytes };
        assert(expr@ =~= seq![literal_tag(kind, nullable)]);
        expr
    }

    /// The logical null type.
    pub fn null() -> (expr: Self)
        ensures
            expr@ == seq![literal_tag(dtype_kind::NULL, false)],
    {
        Self::literal(dtype_kind::NULL, false)
    }

    /// A boolean.
    pub fn bool(nullable: bool) -> (expr: Self)
        ensures
            expr@ == seq![literal_tag(dtype_kind::BOOL, nullable)],
    {
        Self::literal(dtype_kind::BOOL, nullable)
    }

    /// A fixed-width numeric.
    pub fn primitive(ptype: PType, nullable: bool) -> (expr: Self)
        ensures
            expr@ == seq![literal_tag(dtype_kind::PRIMITIVE, nullable), ptype.tag()],
    {
        let mut expr = Self::literal(dtype_kind::PRIMITIVE, nullable);
        expr.bytes.push(ptype.discriminant());
        assert(expr@ =~= seq![literal_tag(dtype_kind::PRIMITIVE, nullable), ptype.tag()]);
        expr
    }

    /// A fixed-precision decimal.
    pub fn decimal(precision: u8, scale: i8, nullable: bool) -> (expr: Self)
        ensures
            expr@ == seq![
                literal_tag(dtype_kind::DECIMAL, nullable),
                precision,
                scale as u8,
            ],
    {
        let mut expr = Self::literal(dtype_kind::DECIMAL, nullable);
        expr.bytes.push(precision);
        expr.bytes.push(scale as u8);
        assert(expr@ =~= seq![
            literal_tag(dtype_kind::DECIMAL, nullable),
            precision,
            scale as u8,
        ]);
        expr
    }

    /// A UTF-8 string.
    pub fn utf8(nullable: bool) -> (expr: Self)
        ensures
            expr@ == seq![literal_tag(dtype_kind::UTF8, nullable)],
    {
        Self::literal(dtype_kind::UTF8, nullable)
    }

    /// Binary data.
    pub fn binary(nullable: bool) -> (expr: Self)
        ensures
            expr@ == seq![literal_tag(dtype_kind::BINARY, nullable)],
    {
        Self::literal(dtype_kind::BINARY, nullable)
    }

    /// A variable-length list of `element`.
    pub fn list(element: DTypeExpr, nullable: bool) -> (expr: Self)
        ensures
            expr@ == seq![literal_tag(dtype_kind::LIST, nullable)] + element@,
    {
        let mut expr = Self::literal(dtype_kind::LIST, nullable);
        push_bytes(&mut expr.bytes, element.bytes.as_slice());
        expr
    }

    /// A fixed-size list of `size` elements.
    pub fn fixed_size_list(element: DTypeExpr, size: u32, nullable: bool) -> (expr: Self)
        ensures
            expr@ == seq![literal_tag(dtype_kind::FIXED_SIZE_LIST, nullable)] + varint_bytes(
                size as nat,
            ) + element@,
    {
        let mut expr = Self::literal(dtype_kind::FIXED_SIZE_LIST, nullable);
        write_varint(&mut expr.bytes, size as u64);
        push_bytes(&mut expr.bytes, element.bytes.as_slice());
        expr
    }

    /// A struct of `(name, dtype)` fields.
    pub fn struct_(fields: Vec<(&'static str, DTypeExpr)>, nullable: bool) -> (expr: Self)
        ensures
            expr@ == seq![literal_tag(dtype_kind::STRUCT, nullable)] + varint_bytes(fields@.len())
                + struct_body(fields@),
    {
        let mut body: Vec<u8> = Vec::new();
        let mut i: usize = 0;
        assert(fields@.take(0) =~= Seq::empty());
        while i < fields.len()
            invariant
                i <= fields@.len(),
                body@ == struct_body(fields@.take(i as int)),
            decreases fields@.len() - i,
        {
            let ghost before = body@;
            push_blob(&mut body, fields[i].0.as_bytes());
            push_bytes(&mut body, fields[i].1.bytes.as_slice());
            assert(fields@.take(i + 1).drop_last() =~= fields@.take(i as int));
            i = i + 1;
        }
        assert(fields@.take(i as int) =~= fields@);
        let mut expr = Self::literal(dtype_kind::STRUCT, nullable);
        write_varint(&mut expr.bytes, fields.len() as u64);
        push_bytes(&mut expr.bytes, body.as_slice());
        expr
    }

    /// A union of `(name, type_id, dtype)` variants.
    ///
    /// `type_id` is the tag the data uses to select the variant, and need not be its position.
    pub fn union_(variants: Vec<(&'static str, u8, DTypeExpr)>, nullable: bool) -> (expr: Self)
        ensures
            expr@ == seq![literal_tag(dtype_kind::UNION, nullable)] + varint_bytes(variants@.len())
                + union_body(variants@),
    {
        let mut body: Vec<u8> = Vec::new();
        let mut i: usize = 0;
        assert(variants@.take(0) =~= Seq::empty());
        while i < variants.len()
            invariant
                i <= variants@.len(),
                body@ == union_body(variants@.take(i as int)),
            decreases variants@.len() - i,
        {
            let ghost before = body@;
            push_blob(&mut body, variants[i].0.as_bytes());
            body.push(variants[i].1);
            push_bytes(&mut body, variants[i].2.bytes.as_slice());
            assert(variants@.take(i + 1).drop_last() =~= variants@.take(i as int));
            assert(body@ =~= before + blob(variants@[i as int].0.spec_bytes()) + seq![
                variants@[i as int].1,
            ] + variants@[i as int].2@);
            i = i + 1;
        }
        assert(variants@.take(i as int) =~= variants@);
        let mut expr = Self::literal(dtype_kind::UNION, nullable);
        write_varint(&mut expr.bytes, variants.len() as u64);
        push_bytes(&mut expr.bytes, body.as_slice());
        expr
    }

    /// An extension type: `id` and `metadata` as the host's registry expects them, over `storage`.
    ///
    /// For the node's own extension type, or one reachable from it, prefer [`Self::parent`] and
    /// [`Self::storage`]: they need no knowledge of the metadata format at all.
    pub fn extension(id: &str, metadata: &[u8], storage: DTypeExpr, nullable: bool) -> (expr: Self)
        ensures
            expr@ == seq![literal_tag(dtype_kind::EXTENSION, nullable)] + blob(id.spec_bytes())
                + blob(metadata@) + storage@,
    {
        let mut expr = Self::literal(dtype_kind::EXTENSION, nullable);
        push_blob(&mut expr.bytes, id.as_bytes());
        push_blob(&mut expr.bytes, metadata);
        push_bytes(&mut expr.bytes, storage.bytes.as_slice());
        expr
    }

    /// A map from `key` to `value`. Keys must be non-nullable.
    pub fn map(key: DTypeExpr, value: DTypeExpr, keys_sorted: bool, nullable: bool) -> (expr: Self)
        ensures
            expr@ == seq![
                literal_tag(dtype_kind::MAP, nullable),
                if keys_sorted {
                    1u8
                } else {
                    0u8
                },
            ] + key@ + value@,
    {
        let mut expr = Self::literal(dtype_kind::MAP, nullable);
        let sorted: u8 = if keys_sorted {
            1
        } else {
            0
        };
        expr.bytes.push(sorted);
        push_bytes(&mut expr.bytes, key.bytes.as_slice());
        push_bytes(&mut expr.bytes, value.bytes.as_slice());
        assert(expr@ =~= seq![literal_tag(dtype_kind::MAP, nullable), sorted] + key@ + value@);
        expr
    }

    fn derived(op: u8, inner: DTypeExpr) -> (expr: Self)
        requires
            op < 64,
        ensures
            expr@ == seq![derived_tag(op)] + inner@,
    {
        let mut bytes: Vec<u8> = Vec::new();
        bytes.push(dtype_tag::DERIVED + op);
        push_bytes(&mut bytes, inner.bytes.as_slice());
        let expr = DTypeExpr { bytes };
        assert(expr@ =~= seq![derived_tag(op)] + inner@);
        expr
    }

    /// Struct field `index` of `inner`.
    pub fn field(inner: DTypeExpr, index: u32) -> (expr: Self)
        ensures
            expr@ == seq![derived_tag(dtype_derivation::FIELD)] + varint_bytes(index as nat)
                + inner@,
            expr@[0] == 0x81,
            match varint(expr@, 1) {
                Ok((read, n)) => read == index && expr@.skip(1 + n as int) == inner@,
                Err(_) => false,
            },
    {
        let mut bytes: Vec<u8> = Vec::new();
        bytes.push(dtype_tag::DERIVED + dtype_derivation::FIELD);
        write_varint(&mut bytes, index as u64);
        push_bytes(&mut bytes, inner.bytes.as_slice());
        let expr = DTypeExpr { bytes };
        assert(expr@ =~= seq![derived_tag(dtype_derivation::FIELD)] + varint_bytes(index as nat)
            + inner@);
        proof {
            let written = varint_bytes(index as nat);
            assert(expr@.subrange(1, 1 + written.len() as int) =~= written);
            law_varint_round_trip(expr@, 1, index as u64);
            assert(expr@.skip(1 + written.len() as int) =~= inner@);
        }
        expr
    }

    /// The element type of the list `inner`, or the `{key, value}` entry struct of the map `inner`.
    pub fn element(inner: DTypeExpr) -> (expr: Self)
        ensures
            expr@ == seq![derived_tag(dtype_derivation::ELEMENT)] + inner@,
            expr@ == seq![0x82u8] + inner@,
    {
        Self::derived(dtype_derivation::ELEMENT, inner)
    }

    /// The storage type of the extension type `inner`.
    pub fn storage(inner: DTypeExpr) -> (expr: Self)
        ensures
            expr@ == seq![derived_tag(dtype_derivation::STORAGE)] + inner@,
            expr@ == seq![0x83u8] + inner@,
    {
        Self::derived(dtype_derivation::STORAGE, inner)
    }

    /// `inner`, made nullable.
    pub fn nullable(inner: DTypeExpr) -> (expr: Self)
        ensures
            expr@ == seq![derived_tag(dtype_derivation::NULLABLE)] + inner@,
            expr@ == seq![0x84u8] + inner@,
    {
        Self::derived(dtype_derivation::NULLABLE, inner)
    }

    /// `inner`, made non-nullable.
    pub fn non_nullable(inner: DTypeExpr) -> (expr: Self)
        ensures
            expr@ == seq![derived_tag(dtype_derivation::NON_NULLABLE)] + inner@,
            expr@ == seq![0x85u8] + inner@,
    {
        Self::derived(dtype_derivation::NON_NULLABLE, inner)
    }

    /// The encoded bytes.
    pub fn as_bytes(&self) -> (bytes: &[u8])
        ensures
            bytes@ == self@,
    {
        self.bytes.as_slice()
    }
}

} // verus!
