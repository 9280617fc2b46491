//! Arrays crossing the host/guest boundary, in canonical layouts.
//!
//! One wire format serves both directions. The host writes the node's decoded children into
//! guest memory, where they are parsed as [`ArrayView`]s, and the kernel returns its output as a
//! [`Decoded`](crate::decoded::Decoded), which is written in the same layout. Strings cross as
//! 16-byte views plus data buffers, lists as list-views (offsets and sizes, so a sublist is a
//! slice of the elements and never copied).

use vstd::prelude::*;
use vstd::slice::slice_subrange;
use vstd::slice::slice_to_vec;

use crate::abi::array_frame;
use crate::abi::shape;
use crate::abi::validity;
use crate::abi::PType;
use crate::bits::bit;
use crate::bits::bit_at;
use crate::bits::gather_bits;
use crate::bits::pack;
use crate::error::GuestError;
use crate::error::GuestResult;
use crate::frame::bitmap_len;
use crate::frame::parse;
use crate::frame::parse_buffers;
use crate::frame::parse_frame;
use crate::frame::parse_frames;
use crate::frame::parse_validity;
use crate::frame::Frame;
use crate::frame::ValidityModel;
use crate::frame::MAX_DEPTH;
use crate::le::read_u32;
use crate::runtime::LinearMemory;
use crate::runtime::Memory;

pub use crate::decoded::Decoded;
pub use crate::decoded::DecodedBool;
pub use crate::decoded::DecodedDecimal;
pub use crate::decoded::DecodedPrimitive;
pub use crate::decoded::DecodedVarBinView;

verus! {

/// Storage width of a decimal array's values.
#[derive(Debug, Clone, Copy, PartialEq, Eq, Structural)]
pub enum DecimalType {
    /// 8-bit storage.
    I8,
    /// 16-bit storage.
    I16,
    /// 32-bit storage.
    I32,
    /// 64-bit storage.
    I64,
    /// 128-bit storage.
    I128,
    /// 256-bit storage.
    I256,
}

impl DecimalType {
    /// The wire discriminant.
    pub open spec fn tag(self) -> u8 {
        match self {
            DecimalType::I8 => 0,
            DecimalType::I16 => 1,
            DecimalType::I32 => 2,
            DecimalType::I64 => 3,
            DecimalType::I128 => 4,
            DecimalType::I256 => 5,
        }
    }

    /// The storage type with the given discriminant, if there is one.
    pub open spec fn of_tag(value: int) -> Option<DecimalType> {
        if value == 0 {
            Some(DecimalType::I8)
        } else if value == 1 {
            Some(DecimalType::I16)
        } else if value == 2 {
            Some(DecimalType::I32)
        } else if value == 3 {
            Some(DecimalType::I64)
        } else if value == 4 {
            Some(DecimalType::I128)
        } else if value == 5 {
            Some(DecimalType::I256)
        } else {
            None
        }
    }

    /// Width of one element in bytes.
    pub open spec fn width(self) -> nat {
        match self {
            DecimalType::I8 => 1,
            DecimalType::I16 => 2,
            DecimalType::I32 => 4,
            DecimalType::I64 => 8,
            DecimalType::I128 => 16,
            DecimalType::I256 => 32,
        }
    }

    /// The wire discriminant.
    pub fn discriminant(self) -> (tag: u8)
        ensures
            tag == self.tag(),
    {
        match self {
            DecimalType::I8 => 0,
            DecimalType::I16 => 1,
            DecimalType::I32 => 2,
            DecimalType::I64 => 3,
            DecimalType::I128 => 4,
            DecimalType::I256 => 5,
        }
    }

    /// Width in bytes.
    pub fn byte_width(self) -> (width: usize)
        ensures
            width == self.width(),
    {
        match self {
            DecimalType::I8 => 1,
            DecimalType::I16 => 2,
            DecimalType::I32 => 4,
            DecimalType::I64 => 8,
            DecimalType::I128 => 16,
            DecimalType::I256 => 32,
        }
    }

    /// Parse the wire discriminant.
    pub fn from_discriminant(value: u8) -> (storage: Option<Self>)
        ensures
            storage == Self::of_tag(value as int),
    {
        match value {
            0 => Some(DecimalType::I8),
            1 => Some(DecimalType::I16),
            2 => Some(DecimalType::I32),
            3 => Some(DecimalType::I64),
            4 => Some(DecimalType::I128),
            5 => Some(DecimalType::I256),
            _ => None,
        }
    }
}

/// The validity of an array, as an algebra rather than an always-materialized bitmap.
///
/// A non-nullable or all-valid array carries no bitmap across the boundary at all.
pub enum Validity {
    /// The dtype is not nullable.
    NonNullable,
    /// Nullable, all elements valid.
    AllValid,
    /// Nullable, all elements null.
    AllInvalid,
    /// An LSB-first bitmap, `ceil(len / 8)` bytes, 1 = valid.
    Bitmap(Vec<u8>),
}

impl View for Validity {
    type V = ValidityModel;

    open spec fn view(&self) -> ValidityModel {
        match self {
            Validity::NonNullable => ValidityModel::NonNullable,
            Validity::AllValid => ValidityModel::AllValid,
            Validity::AllInvalid => ValidityModel::AllInvalid,
            Validity::Bitmap(bits) => ValidityModel::Bitmap(bits@),
        }
    }
}

impl Validity {
    /// The wire tag.
    pub fn tag(&self) -> (tag: u8)
        ensures
            tag == self@.tag(),
    {
        match self {
            Validity::NonNullable => validity::NON_NULLABLE,
            Validity::AllValid => validity::ALL_VALID,
            Validity::AllInvalid => validity::ALL_INVALID,
            Validity::Bitmap(_) => validity::BITMAP,
        }
    }
}

impl ValidityModel {
    /// Whether element `i` is valid.
    pub open spec fn is_valid(self, i: int) -> bool {
        match self {
            ValidityModel::NonNullable | ValidityModel::AllValid => true,
            ValidityModel::AllInvalid => false,
            ValidityModel::Bitmap(bits) => bit_at(bits, i),
        }
    }

    /// The validity of the elements at `indices`, in order.
    pub open spec fn take(self, indices: Seq<u32>) -> ValidityModel {
        match self {
            ValidityModel::Bitmap(bits) => ValidityModel::Bitmap(
                pack(|i: int| bit_at(bits, indices[i] as int), indices.len() as int),
            ),
            other => other,
        }
    }

    /// Element `i` of a gathered validity is valid if and only if the element it came from is.
    pub proof fn law_take_is_valid(self, indices: Seq<u32>, i: int)
        requires
            0 <= i < indices.len(),
        ensures
            self.take(indices).is_valid(i) == self.is_valid(indices[i] as int),
    {
        if let ValidityModel::Bitmap(bits) = self {
            crate::bits::lemma_pack_bit(
                |j: int| bit_at(bits, indices[j] as int),
                indices.len() as int,
                i,
            );
        }
    }
}

/// The validity of a host-supplied array, borrowed from guest memory.
#[derive(Clone, Copy)]
pub enum ValidityView<'a> {
    /// The dtype is not nullable.
    NonNullable,
    /// Nullable, all elements valid.
    AllValid,
    /// Nullable, all elements null.
    AllInvalid,
    /// An LSB-first bitmap, `ceil(len / 8)` bytes, 1 = valid.
    Bitmap(&'a [u8]),
}

impl<'a> View for ValidityView<'a> {
    type V = ValidityModel;

    open spec fn view(&self) -> ValidityModel {
        match self {
            ValidityView::NonNullable => ValidityModel::NonNullable,
            ValidityView::AllValid => ValidityModel::AllValid,
            ValidityView::AllInvalid => ValidityModel::AllInvalid,
            ValidityView::Bitmap(bits) => ValidityModel::Bitmap(bits@),
        }
    }
}

impl<'a> ValidityView<'a> {
    /// The validity that a wire tag and a bitmap pointer name.
    pub fn parse(
        memory: &'a LinearMemory,
        tag: u8,
        ptr: u32,
        len: usize,
    ) -> (result: GuestResult<ValidityView<'a>>)
        ensures
            match result {
                Ok(view) => parse_validity(memory@, tag, ptr, len as int) == Ok::<_, GuestError>(
                    view@,
                ),
                Err(e) => parse_validity(memory@, tag, ptr, len as int) == Err::<
                    ValidityModel,
                    _,
                >(e),
            },
    {
        if tag == validity::NON_NULLABLE {
            Ok(ValidityView::NonNullable)
        } else if tag == validity::ALL_VALID {
            Ok(ValidityView::AllValid)
        } else if tag == validity::ALL_INVALID {
            Ok(ValidityView::AllInvalid)
        } else if tag == validity::BITMAP {
            let bytes: usize = len / 8 + if len % 8 == 0 { 0 } else { 1 };
            assert(bytes == bitmap_len(len as int));
            match memory.load(ptr, bytes) {
                Some(bits) => Ok(ValidityView::Bitmap(bits)),
                None => Err(GuestError::new("validity bitmap outside guest memory")),
            }
        } else {
            Err(GuestError::new("bad validity tag"))
        }
    }

    /// Whether element `i` is valid.
    pub fn is_valid(&self, i: usize) -> (valid: bool)
        ensures
            valid == self@.is_valid(i as int),
    {
        match self {
            ValidityView::NonNullable | ValidityView::AllValid => true,
            ValidityView::AllInvalid => false,
            ValidityView::Bitmap(bits) => bit(bits, i),
        }
    }

    /// An owned copy.
    pub fn to_owned(&self) -> (owned: Validity)
        ensures
            owned@ == self@,
    {
        match self {
            ValidityView::NonNullable => Validity::NonNullable,
            ValidityView::AllValid => Validity::AllValid,
            ValidityView::AllInvalid => Validity::AllInvalid,
            ValidityView::Bitmap(bits) => Validity::Bitmap(slice_to_vec(bits)),
        }
    }

    /// The validity of the elements at `indices`, in order.
    pub fn take(&self, indices: &[u32]) -> (taken: Validity)
        ensures
            taken@ == self@.take(indices@),
    {
        match self {
            ValidityView::NonNullable => Validity::NonNullable,
            ValidityView::AllValid => Validity::AllValid,
            ValidityView::AllInvalid => Validity::AllInvalid,
            ValidityView::Bitmap(bits) => Validity::Bitmap(gather_bits(bits, indices)),
        }
    }
}

/// A host-supplied array, parsed from guest memory. Borrowed: nothing is copied until a kernel
/// asks for it.
pub struct ArrayView<'a> {
    /// Logical element count.
    pub len: usize,
    /// Element validity. For shapes whose validity lives in a child (union, map, extension) this
    /// is what the host wrote for the node itself and is not authoritative.
    pub validity: ValidityView<'a>,
    /// The canonical shape and its buffers or children.
    pub kind: ArrayKind<'a>,
}

/// The canonical shape of an [`ArrayView`].
pub enum ArrayKind<'a> {
    /// The logical null array.
    Null,
    /// A boolean array; `bits` is an LSB-first bitmap.
    Bool {
        /// The values bitmap, `ceil(len / 8)` bytes.
        bits: &'a [u8],
    },
    /// A fixed-width numeric array.
    Primitive {
        /// Element type.
        ptype: PType,
        /// Little-endian values, `len * ptype.byte_width()` bytes.
        values: &'a [u8],
    },
    /// A decimal array: scaled integers of the given storage width.
    Decimal {
        /// Storage width.
        values_type: DecimalType,
        /// Little-endian values, `len * values_type.byte_width()` bytes.
        values: &'a [u8],
    },
    /// A string or binary array in the canonical view layout.
    VarBinView {
        /// `len * 16` bytes of views.
        views: &'a [u8],
        /// The data buffers views may reference.
        data: Vec<&'a [u8]>,
    },
    /// A variable-length list in the list-view layout: each list is
    /// `elements[offset..offset + size]`.
    List {
        /// Non-nullable integer offsets into `elements`, one per list.
        offsets: Box<ArrayView<'a>>,
        /// Non-nullable integer sizes, one per list.
        sizes: Box<ArrayView<'a>>,
        /// The flattened elements.
        elements: Box<ArrayView<'a>>,
    },
    /// A fixed-size list: list `i` is `elements[i * size..(i + 1) * size]`.
    FixedSizeList {
        /// The flattened elements, `len * size` long.
        elements: Box<ArrayView<'a>>,
    },
    /// A struct: one row-aligned child per field.
    Struct {
        /// The fields, in dtype order.
        fields: Vec<ArrayView<'a>>,
    },
    /// A sparse union: a `u8` tag per row selecting one of the row-aligned variants. A null tag
    /// is an outer null.
    Union {
        /// The type tags, a `u8` primitive whose validity is the union's.
        type_ids: Box<ArrayView<'a>>,
        /// The variants, in dtype order, each as long as the union.
        variants: Vec<ArrayView<'a>>,
    },
    /// A map: a list of non-nullable `{key, value}` entry structs.
    Mapping {
        /// The entries, a `List` of `Struct`.
        entries: Box<ArrayView<'a>>,
    },
    /// An extension array: its storage, whose dtype is the extension type's storage dtype.
    Extension {
        /// The storage array.
        storage: Box<ArrayView<'a>>,
    },
}

/// A typed view of a primitive array.
pub struct PrimitiveView<'a> {
    /// Element type.
    pub ptype: PType,
    /// Logical element count.
    pub len: usize,
    /// Little-endian values.
    pub values: &'a [u8],
    /// Element validity.
    pub validity: ValidityView<'a>,
}

/// The value of the little-endian unsigned integer in `bytes`.
pub open spec fn le_value(bytes: Seq<u8>) -> nat
    decreases bytes.len(),
{
    if bytes.len() == 0 {
        0
    } else {
        bytes.first() as nat + 256 * le_value(bytes.drop_first())
    }
}

impl<'a> PrimitiveView<'a> {
    /// Read element `i` widened to `u64` (values are unsigned-reinterpreted).
    pub fn value_u64(&self, i: usize) -> (value: u64)
        requires
            (i + 1) * self.ptype.width() <= self.values@.len(),
        ensures
            value == le_value(
                self.values@.subrange(
                    i * self.ptype.width() as int,
                    (i + 1) * self.ptype.width() as int,
                ),
            ),
    {
        let w: usize = self.ptype.byte_width();
        let ghost element = self.values@.subrange(i * w as int, (i + 1) * w as int);
        assert((i + 1) * w == i * w + w) by (nonlinear_arith);
        assert(0 <= i * w) by (nonlinear_arith);
        assert(self.values.len() <= usize::MAX);
        let start: usize = i * w;
        let mut value: u64 = 0;
        let mut k: usize = w;
        while k > 0
            invariant
                k <= w <= 8,
                start == i * w,
                start + w <= self.values@.len(),
                element == self.values@.subrange(i * w as int, i * w + w),
                value == le_value(element.skip(k as int)),
                value < (if w - k == 0 {
                    1int
                } else if w - k == 1 {
                    0x100
                } else if w - k == 2 {
                    0x1_0000
                } else if w - k == 3 {
                    0x100_0000
                } else if w - k == 4 {
                    0x1_0000_0000
                } else if w - k == 5 {
                    0x100_0000_0000
                } else if w - k == 6 {
                    0x1_0000_0000_0000
                } else if w - k == 7 {
                    0x100_0000_0000_0000
                } else {
                    0x1_0000_0000_0000_0000
                }),
            decreases k,
        {
            k = k - 1;
            assert(self.values.len() <= usize::MAX);
            assert(element.skip(k as int).drop_first() =~= element.skip(k + 1));
            value = value * 256 + self.values[start + k] as u64;
        }
        assert(element.skip(0) =~= element);
        value
    }
}

/// A typed view of a boolean array.
pub struct BoolView<'a> {
    /// Logical element count.
    pub len: usize,
    /// The values bitmap, `ceil(len / 8)` bytes.
    pub bits: &'a [u8],
    /// Element validity.
    pub validity: ValidityView<'a>,
}

/// The frames of a sequence of views.
pub open spec fn view_frames<'a>(views: Seq<ArrayView<'a>>) -> Seq<Frame>
    decreases views,
{
    Seq::new(
        views.len(),
        |i: int|
            if 0 <= i < views.len() {
                views[i].frame()
            } else {
                arbitrary()
            },
    )
}

/// The contents of a sequence of buffers.
pub open spec fn buffer_contents<'a>(buffers: Seq<&'a [u8]>) -> Seq<Seq<u8>> {
    Seq::new(buffers.len(), |i: int| buffers[i]@)
}

impl<'a> ArrayView<'a> {
    /// What the array's frame says.
    pub open spec fn frame(self) -> Frame
        decreases self,
    {
        let bare = Frame {
            shape: shape::NULL,
            param: 0,
            validity: self.validity@,
            len: self.len as nat,
            buffers: seq![],
            children: seq![],
        };
        match self.kind {
            ArrayKind::Null => bare,
            ArrayKind::Bool { bits } => Frame { shape: shape::BOOL, buffers: seq![bits@], ..bare },
            ArrayKind::Primitive { ptype, values } => Frame {
                shape: shape::PRIMITIVE,
                param: ptype.tag(),
                buffers: seq![values@],
                ..bare
            },
            ArrayKind::Decimal { values_type, values } => Frame {
                shape: shape::DECIMAL,
                param: values_type.tag(),
                buffers: seq![values@],
                ..bare
            },
            ArrayKind::VarBinView { views, data } => Frame {
                shape: shape::VAR_BIN_VIEW,
                buffers: seq![views@] + buffer_contents(data@),
                ..bare
            },
            ArrayKind::List { offsets, sizes, elements } => Frame {
                shape: shape::LIST,
                children: seq![offsets.frame(), sizes.frame(), elements.frame()],
                ..bare
            },
            ArrayKind::FixedSizeList { elements } => Frame {
                shape: shape::FIXED_SIZE_LIST,
                children: seq![elements.frame()],
                ..bare
            },
            ArrayKind::Struct { fields } => Frame {
                shape: shape::STRUCT,
                children: view_frames(fields@),
                ..bare
            },
            ArrayKind::Union { type_ids, variants } => Frame {
                shape: shape::UNION,
                children: seq![type_ids.frame()] + view_frames(variants@),
                ..bare
            },
            ArrayKind::Mapping { entries } => Frame {
                shape: shape::MAP,
                children: seq![entries.frame()],
                ..bare
            },
            ArrayKind::Extension { storage } => Frame {
                shape: shape::EXTENSION,
                children: seq![storage.frame()],
                ..bare
            },
        }
    }

    /// The frame's length is the array's.
    pub proof fn lemma_frame_len(self)
        ensures
            self.frame().len == self.len,
    {
    }

    /// This array as a primitive, or an error if it is some other shape.
    pub fn as_primitive(&self) -> (result: GuestResult<PrimitiveView<'a>>)
        ensures
            match self.kind {
                ArrayKind::Primitive { ptype, values } => result == Ok::<_, GuestError>(
                    PrimitiveView { ptype, len: self.len, values, validity: self.validity },
                ),
                _ => result == Err::<PrimitiveView<'a>, _>(
                    GuestError::of("array is not primitive"),
                ),
            },
    {
        match &self.kind {
            ArrayKind::Primitive { ptype, values } => Ok(
                PrimitiveView { ptype: *ptype, len: self.len, values, validity: self.validity },
            ),
            _ => Err(GuestError::new("array is not primitive")),
        }
    }

    /// This array as a boolean, or an error if it is some other shape.
    pub fn as_bool(&self) -> (result: GuestResult<BoolView<'a>>)
        ensures
            match self.kind {
                ArrayKind::Bool { bits } => result == Ok::<_, GuestError>(
                    BoolView { len: self.len, bits, validity: self.validity },
                ),
                _ => result == Err::<BoolView<'a>, _>(GuestError::of("array is not boolean")),
            },
    {
        match &self.kind {
            ArrayKind::Bool { bits } => Ok(
                BoolView { len: self.len, bits, validity: self.validity },
            ),
            _ => Err(GuestError::new("array is not boolean")),
        }
    }

    /// Parse the array frame at guest address `ptr`.
    ///
    /// The frame's total size is not known before parsing it, so everything from `ptr` to the end
    /// of the memory is up for reading; the parser only reads what the headers say is there. A
    /// frame, buffer or bitmap that the headers place outside the memory is an error.
    pub fn parse(memory: &'a LinearMemory, ptr: u32) -> (result: GuestResult<Self>)
        ensures
            match result {
                Ok(view) => parse(memory@, ptr) == Ok::<_, GuestError>(view.frame()),
                Err(e) => parse(memory@, ptr) == Err::<Frame, _>(e),
            },
    {
        let size: usize = memory.bytes.len();
        let start: usize = if ptr as usize <= size {
            ptr as usize
        } else {
            size
        };
        let bytes: &'a [u8] = slice_subrange(memory.bytes.as_slice(), start, size);
        assert(bytes@ =~= if ptr <= size {
            memory@.bytes.skip(ptr as int)
        } else {
            Seq::empty()
        });
        match Self::parse_at(memory, bytes, 0, 0) {
            Ok((view, _)) => Ok(view),
            Err(e) => Err(e),
        }
    }

    /// Parse the frame at `offset` in `bytes`, returning the view and the offset just past it.
    pub fn parse_at(
        memory: &'a LinearMemory,
        bytes: &'a [u8],
        offset: usize,
        depth: usize,
    ) -> (result: GuestResult<(Self, usize)>)
        ensures
            match result {
                Ok((view, end)) => {
                    &&& offset < end <= bytes@.len()
                    &&& parse_frame(memory@, bytes@, offset as int, depth as int) == Ok::<
                        _,
                        GuestError,
                    >((view.frame(), end as int))
                },
                Err(e) => parse_frame(memory@, bytes@, offset as int, depth as int) == Err::<
                    (Frame, int),
                    _,
                >(e),
            },
        decreases MAX_DEPTH + 1 - depth, 0nat,
    {
        if depth > MAX_DEPTH {
            return Err(GuestError::new("array nested too deeply"));
        }
        if offset > bytes.len() || bytes.len() - offset < array_frame::HEADER {
            return Err(GuestError::new("truncated array frame"));
        }
        let shape_tag: u8 = bytes[offset + array_frame::SHAPE];
        let param: u8 = bytes[offset + array_frame::PARAM];
        let validity_tag: u8 = bytes[offset + array_frame::VALIDITY];
        let len: usize = read_u32(bytes, offset + array_frame::LEN) as usize;
        let validity_ptr: u32 = read_u32(bytes, offset + array_frame::VALIDITY_PTR);
        let n_buffers: u32 = read_u32(bytes, offset + array_frame::N_BUFFERS);
        let table: usize = offset + array_frame::HEADER;

        let buffers: Vec<&'a [u8]> = match Self::parse_buffer_table(
            memory,
            bytes,
            table,
            n_buffers,
        ) {
            Ok(buffers) => buffers,
            Err(e) => {
                return Err(e);
            },
        };
        proof {
            lemma_parse_buffers_fit(memory@, bytes@, table as int, n_buffers as nat);
        }
        let count_at: usize = table + 8 * n_buffers as usize;
        if bytes.len() - count_at < 4 {
            return Err(GuestError::new("truncated child count"));
        }
        let n_children: u32 = read_u32(bytes, count_at);
        let (children, cursor): (Vec<ArrayView<'a>>, usize) = match Self::parse_children(
            memory,
            bytes,
            count_at + 4,
            depth + 1,
            n_children,
        ) {
            Ok(parsed) => parsed,
            Err(e) => {
                return Err(e);
            },
        };
        let validity = match ValidityView::parse(memory, validity_tag, validity_ptr, len) {
            Ok(validity) => validity,
            Err(e) => {
                return Err(e);
            },
        };
        match Self::interpret(shape_tag, param, len, validity, buffers, children) {
            Ok(view) => Ok((view, cursor)),
            Err(e) => Err(e),
        }
    }

    /// The view of a frame's parts, as its shape reads them.
    fn interpret(
        shape_tag: u8,
        param: u8,
        len: usize,
        validity: ValidityView<'a>,
        buffers: Vec<&'a [u8]>,
        children: Vec<ArrayView<'a>>,
    ) -> (result: GuestResult<Self>)
        ensures
            ({
                let raw = Frame {
                    shape: shape_tag,
                    param,
                    validity: validity@,
                    len: len as nat,
                    buffers: buffer_contents(buffers@),
                    children: view_frames(children@),
                };
                match result {
                    Ok(view) => raw.interpret() == Ok::<_, GuestError>(view.frame()),
                    Err(e) => raw.interpret() == Err::<Frame, _>(e),
                }
            }),
    {
        let ghost raw = Frame {
            shape: shape_tag,
            param,
            validity: validity@,
            len: len as nat,
            buffers: buffer_contents(buffers@),
            children: view_frames(children@),
        };
        let mut children = children;
        let kind: ArrayKind<'a> = if shape_tag == shape::NULL {
            ArrayKind::Null
        } else if shape_tag == shape::BOOL {
            if buffers.len() < 1 {
                return Err(GuestError::new("bool array missing its bitmap"));
            }
            ArrayKind::Bool { bits: buffers[0] }
        } else if shape_tag == shape::PRIMITIVE {
            let ptype = match PType::from_discriminant(param as u64) {
                Some(ptype) => ptype,
                None => {
                    return Err(GuestError::new("bad ptype"));
                },
            };
            if buffers.len() < 1 {
                return Err(GuestError::new("primitive array missing its values"));
            }
            ArrayKind::Primitive { ptype, values: buffers[0] }
        } else if shape_tag == shape::DECIMAL {
            let values_type = match DecimalType::from_discriminant(param) {
                Some(values_type) => values_type,
                None => {
                    return Err(GuestError::new("bad decimal storage type"));
                },
            };
            if buffers.len() < 1 {
                return Err(GuestError::new("decimal array missing its values"));
            }
            ArrayKind::Decimal { values_type, values: buffers[0] }
        } else if shape_tag == shape::VAR_BIN_VIEW {
            if buffers.len() < 1 {
                return Err(GuestError::new("view array missing its views"));
            }
            let mut data = buffers;
            let views: &'a [u8] = data.remove(0);
            assert(seq![views@] + buffer_contents(data@) =~= raw.buffers);
            ArrayKind::VarBinView { views, data }
        } else if shape_tag == shape::LIST {
            if children.len() < 1 {
                return Err(GuestError::new("list missing offsets"));
            }
            if children.len() < 2 {
                return Err(GuestError::new("list missing sizes"));
            }
            if children.len() < 3 {
                return Err(GuestError::new("list missing elements"));
            }
            let offsets = children.remove(0);
            let sizes = children.remove(0);
            let elements = children.remove(0);
            assert(raw.children.take(3) =~= seq![
                offsets.frame(),
                sizes.frame(),
                elements.frame(),
            ]);
            ArrayKind::List {
                offsets: Box::new(offsets),
                sizes: Box::new(sizes),
                elements: Box::new(elements),
            }
        } else if shape_tag == shape::FIXED_SIZE_LIST {
            if children.len() < 1 {
                return Err(GuestError::new("fixed-size list missing elements"));
            }
            let elements = children.remove(0);
            assert(raw.children.take(1) =~= seq![elements.frame()]);
            ArrayKind::FixedSizeList { elements: Box::new(elements) }
        } else if shape_tag == shape::STRUCT {
            ArrayKind::Struct { fields: children }
        } else if shape_tag == shape::UNION {
            if children.len() < 1 {
                return Err(GuestError::new("union missing type ids"));
            }
            let type_ids = children.remove(0);
            assert(raw.children =~= seq![type_ids.frame()] + view_frames(children@));
            ArrayKind::Union { type_ids: Box::new(type_ids), variants: children }
        } else if shape_tag == shape::MAP {
            if children.len() < 1 {
                return Err(GuestError::new("map missing entries"));
            }
            let entries = children.remove(0);
            assert(raw.children.take(1) =~= seq![entries.frame()]);
            ArrayKind::Mapping { entries: Box::new(entries) }
        } else if shape_tag == shape::EXTENSION {
            if children.len() < 1 {
                return Err(GuestError::new("extension missing storage"));
            }
            let storage = children.remove(0);
            assert(raw.children.take(1) =~= seq![storage.frame()]);
            ArrayKind::Extension { storage: Box::new(storage) }
        } else {
            return Err(GuestError::new("bad array shape tag"));
        };
        let view = ArrayView { len, validity, kind };
        proof {
            let expected = raw.interpret()->Ok_0;
            PType::lemma_of_tag(param as int);
            assert(view.frame().buffers =~= expected.buffers);
            assert(view.frame().children =~= expected.children);
            assert(view.frame() == expected);
        }
        Ok(view)
    }

    /// The buffers named by the `n` table entries at `start`.
    fn parse_buffer_table(
        memory: &'a LinearMemory,
        bytes: &'a [u8],
        start: usize,
        n: u32,
    ) -> (result: GuestResult<Vec<&'a [u8]>>)
        requires
            start <= bytes@.len(),
        ensures
            match result {
                Ok(buffers) => parse_buffers(memory@, bytes@, start as int, n as nat) == Ok::<
                    _,
                    GuestError,
                >(buffer_contents(buffers@)),
                Err(e) => parse_buffers(memory@, bytes@, start as int, n as nat) == Err::<
                    Seq<Seq<u8>>,
                    _,
                >(e),
            },
    {
        let mut buffers: Vec<&'a [u8]> = Vec::new();
        let mut cursor: usize = start;
        let mut i: u32 = 0;
        assert(buffer_contents(buffers@) =~= Seq::empty());
        while i < n
            invariant
                i <= n,
                cursor == start + 8 * i,
                cursor <= bytes@.len(),
                parse_buffers(memory@, bytes@, start as int, i as nat) == Ok::<_, GuestError>(
                    buffer_contents(buffers@),
                ),
            decreases n - i,
        {
            proof {
                lemma_parse_buffers_error(memory@, bytes@, start as int, (i + 1) as nat, n as nat);
            }
            if bytes.len() - cursor < 8 {
                return Err(GuestError::new("truncated buffer table"));
            }
            let ptr: u32 = read_u32(bytes, cursor);
            let len: usize = read_u32(bytes, cursor + 4) as usize;
            match memory.load(ptr, len) {
                Some(buffer) => {
                    let ghost before = buffers@;
                    buffers.push(buffer);
                    assert(buffer_contents(buffers@) =~= buffer_contents(before).push(buffer@));
                },
                None => {
                    return Err(GuestError::new("buffer outside guest memory"));
                },
            }
            cursor = cursor + 8;
            i = i + 1;
        }
        Ok(buffers)
    }

    /// The `n` frames that follow one another from `start`, and the offset just past them.
    fn parse_children(
        memory: &'a LinearMemory,
        bytes: &'a [u8],
        start: usize,
        depth: usize,
        n: u32,
    ) -> (result: GuestResult<(Vec<ArrayView<'a>>, usize)>)
        requires
            start <= bytes@.len(),
            depth <= MAX_DEPTH + 1,
        ensures
            match result {
                Ok((children, end)) => {
                    &&& start <= end <= bytes@.len()
                    &&& parse_frames(
                        memory@,
                        bytes@,
                        start as int,
                        depth as int,
                        n as nat,
                    ) == Ok::<_, GuestError>((view_frames(children@), end as int))
                },
                Err(e) => parse_frames(memory@, bytes@, start as int, depth as int, n as nat)
                    == Err::<(Seq<Frame>, int), _>(e),
            },
        decreases MAX_DEPTH + 1 - depth, 1nat,
    {
        let mut children: Vec<ArrayView<'a>> = Vec::new();
        let mut cursor: usize = start;
        let mut i: u32 = 0;
        assert(view_frames(children@) =~= Seq::empty());
        while i < n
            invariant
                i <= n,
                start <= cursor <= bytes@.len(),
                depth <= MAX_DEPTH + 1,
                parse_frames(memory@, bytes@, start as int, depth as int, i as nat) == Ok::<
                    _,
                    GuestError,
                >((view_frames(children@), cursor as int)),
            decreases n - i,
        {
            proof {
                lemma_parse_frames_error(
                    memory@,
                    bytes@,
                    start as int,
                    depth as int,
                    (i + 1) as nat,
                    n as nat,
                );
            }
            match Self::parse_at(memory, bytes, cursor, depth) {
                Ok((child, next)) => {
                    let ghost before = children@;
                    children.push(child);
                    assert(view_frames(children@) =~= view_frames(before).push(child.frame()));
                    cursor = next;
                },
                Err(e) => {
                    return Err(e);
                },
            }
            i = i + 1;
        }
        Ok((children, cursor))
    }
}

/// An error in a prefix of a buffer table is the error of the table.
proof fn lemma_parse_buffers_error(memory: Memory, bytes: Seq<u8>, start: int, k: nat, n: nat)
    requires
        k <= n,
    ensures
        parse_buffers(memory, bytes, start, k) matches Err(e) ==> parse_buffers(
            memory,
            bytes,
            start,
            n,
        ) == Err::<Seq<Seq<u8>>, _>(e),
    decreases n,
{
    if k < n {
        lemma_parse_buffers_error(memory, bytes, start, k, (n - 1) as nat);
    }
}

/// A buffer table that parses lies within the bytes.
proof fn lemma_parse_buffers_fit(memory: Memory, bytes: Seq<u8>, start: int, n: nat)
    requires
        start <= bytes.len(),
    ensures
        parse_buffers(memory, bytes, start, n) is Ok ==> start + 8 * n <= bytes.len(),
    decreases n,
{
    if n > 0 {
        lemma_parse_buffers_fit(memory, bytes, start, (n - 1) as nat);
    }
}

/// An error in a prefix of the children is the error of the children.
proof fn lemma_parse_frames_error(
    memory: Memory,
    bytes: Seq<u8>,
    start: int,
    depth: int,
    k: nat,
    n: nat,
)
    requires
        k <= n,
    ensures
        parse_frames(memory, bytes, start, depth, k) matches Err(e) ==> parse_frames(
            memory,
            bytes,
            start,
            depth,
            n,
        ) == Err::<(Seq<Frame>, int), _>(e),
    decreases n,
{
    if k < n {
        lemma_parse_frames_error(memory, bytes, start, depth, k, (n - 1) as nat);
    }
}

/// The numbers of the decimal storage types say how wide they are: each is twice as wide as the one
/// before it, from one byte on.
pub proof fn law_decimal_types(storage: DecimalType, other: DecimalType)
    ensures
        storage.tag() < 6,
        storage.tag() == 0 ==> storage.width() == 1,
        other.tag() == storage.tag() + 1 ==> other.width() == 2 * storage.width(),
        DecimalType::of_tag(storage.tag() as int) == Some(storage),
{
}

/// A little-endian number is given by its bytes: each adds itself times a power of 256 by its place.
pub proof fn law_le_value(front: Seq<u8>, last: u8)
    ensures
        le_value(front.push(last)) == le_value(front) + last * le_scale(front.len()),
    decreases front.len(),
{
    let whole = front.push(last);
    if front.len() > 0 {
        let rest = front.drop_first();
        assert(whole.drop_first() =~= rest.push(last));
        law_le_value(rest, last);
        let scale = le_scale(rest.len());
        assert(256 * (last * scale) == last * (256 * scale)) by (nonlinear_arith);
        assert(le_scale(front.len()) == 256 * scale);
        assert(whole.first() == front.first());
        assert(le_value(whole) == whole.first() as nat + 256 * le_value(rest.push(last)));
        assert(le_value(front) == front.first() as nat + 256 * le_value(rest));
    } else {
        assert(whole.drop_first() =~= Seq::empty());
        assert(le_value(whole.drop_first()) == 0);
        assert(le_value(front) == 0);
        assert(last * le_scale(0) == last) by (nonlinear_arith)
            requires
                le_scale(0) == 1,
        ;
    }
}

/// 256 to a power.
pub open spec fn le_scale(n: nat) -> nat
    decreases n,
{
    if n == 0 {
        1
    } else {
        256 * le_scale((n - 1) as nat)
    }
}

} // verus!
