//! Arrays a kernel builds, and the gather that re-arranging encodings are made of.
//!
//! Run-end, dict, and their relatives do not compute values: their output is a child's values
//! re-arranged. [`Decoded::take`] is the generic gather that lets such a kernel materialize its
//! output over a child of any dtype without dtype-specific code.

use vstd::arithmetic::div_mod::lemma_div_multiples_vanish;
use vstd::arithmetic::div_mod::lemma_div_pos_is_pos;
use vstd::prelude::*;
use vstd::slice::slice_subrange;
use vstd::slice::slice_to_vec;

use crate::abi::shape;
use crate::abi::PType;
use crate::bits::bit_at;
use crate::bits::gather_bits;
use crate::bits::pack;
use crate::data::buffer_contents;
use crate::data::view_frames;
use crate::data::ArrayKind;
use crate::data::ArrayView;
use crate::data::DecimalType;
use crate::data::Validity;
use crate::error::GuestError;
use crate::error::GuestResult;
use crate::frame::bitmap_len;
use crate::frame::encode;
use crate::frame::encode_all;
use crate::frame::encode_buffers;
use crate::frame::encode_validity;
use crate::frame::parse;
use crate::frame::written;
use crate::frame::Frame;
use crate::frame::ValidityModel;
use crate::host::alloc_bytes;
use crate::le::group_le_len;
use crate::le::lemma_piece;
use crate::le::lemma_u32_round_trip;
use crate::le::push_bytes;
use crate::le::push_u32;
use crate::le::u32_at;
use crate::le::u32_le;
use crate::plan::array_descriptor_spec;
use crate::runtime::LinearMemory;
use crate::runtime::Memory;

verus! {

/// Values up to this length are stored inline in a view instead of the data buffer.
pub const MAX_INLINED: usize = 12;

/// Size of one canonical string view.
pub const VIEW_SIZE: usize = 16;

/// A materialized primitive array.
pub struct DecodedPrimitive {
    /// Element type.
    pub ptype: PType,
    /// Logical element count.
    pub len: usize,
    /// Little-endian values, `len * ptype.byte_width()` bytes.
    pub values: Vec<u8>,
    /// Element validity.
    pub validity: Validity,
}

/// A materialized boolean array.
pub struct DecodedBool {
    /// Logical element count.
    pub len: usize,
    /// LSB-first values bitmap, `ceil(len / 8)` bytes.
    pub bits: Vec<u8>,
    /// Element validity.
    pub validity: Validity,
}

/// A materialized decimal array.
pub struct DecodedDecimal {
    /// Storage width. Must be wide enough for the dtype's precision.
    pub values_type: DecimalType,
    /// Logical element count.
    pub len: usize,
    /// Little-endian scaled integers, `len * values_type.byte_width()` bytes.
    pub values: Vec<u8>,
    /// Element validity.
    pub validity: Validity,
}

/// A materialized string/binary array in the canonical layout: 16-byte views plus data buffers.
/// Build one with [`DecodedVarBinView::from_heap`] rather than by hand.
pub struct DecodedVarBinView {
    /// Logical element count.
    pub len: usize,
    /// `len * 16` bytes of views.
    pub views: Vec<u8>,
    /// The data buffers views may reference.
    pub data: Vec<Vec<u8>>,
    /// Element validity.
    pub validity: Validity,
}

/// An array the kernel built, to be returned to the host. Owned; mirrors [`ArrayKind`].
pub enum Decoded {
    /// The logical null array of `len` elements.
    Null {
        /// Logical element count.
        len: usize,
    },
    /// A boolean array.
    Bool(DecodedBool),
    /// A fixed-width numeric array.
    Primitive(DecodedPrimitive),
    /// A decimal array.
    Decimal(DecodedDecimal),
    /// A string or binary array.
    VarBinView(DecodedVarBinView),
    /// A list in the list-view layout.
    List {
        /// Logical element count.
        len: usize,
        /// Non-nullable integer offsets into `elements`.
        offsets: Box<Decoded>,
        /// Non-nullable integer sizes.
        sizes: Box<Decoded>,
        /// The flattened elements.
        elements: Box<Decoded>,
        /// List validity.
        validity: Validity,
    },
    /// A fixed-size list.
    FixedSizeList {
        /// Logical element count.
        len: usize,
        /// The flattened elements, `len * size` long.
        elements: Box<Decoded>,
        /// List validity.
        validity: Validity,
    },
    /// A struct.
    Struct {
        /// Logical element count.
        len: usize,
        /// The fields, in dtype order, each `len` long.
        fields: Vec<Decoded>,
        /// Row validity.
        validity: Validity,
    },
    /// A sparse union. Its validity is `type_ids`'s.
    Union {
        /// Logical element count.
        len: usize,
        /// A `u8` primitive of type tags; a null tag is an outer null.
        type_ids: Box<Decoded>,
        /// The variants, in dtype order, each `len` long.
        variants: Vec<Decoded>,
    },
    /// A map. Its validity is `entries`'s.
    Mapping {
        /// The entries, a `List` of non-nullable `Struct { key, value }`.
        entries: Box<Decoded>,
    },
    /// An extension array over its storage.
    Extension {
        /// The storage array.
        storage: Box<Decoded>,
    },
}

/// The frames of a sequence of arrays.
pub open spec fn decoded_frames(arrays: Seq<Decoded>) -> Seq<Frame>
    decreases arrays,
{
    Seq::new(
        arrays.len(),
        |i: int|
            if 0 <= i < arrays.len() {
                arrays[i].frame()
            } else {
                arbitrary()
            },
    )
}

/// The frames of a sequence of borrowed arrays.
pub open spec fn array_frames(arrays: Seq<&Decoded>) -> Seq<Frame> {
    Seq::new(arrays.len(), |i: int| arrays[i].frame())
}

/// The contents of a sequence of owned buffers.
pub open spec fn owned_contents(buffers: Seq<Vec<u8>>) -> Seq<Seq<u8>> {
    Seq::new(buffers.len(), |i: int| buffers[i]@)
}

/// A frame with no buffers and no children.
pub open spec fn bare_frame(shape: u8, len: nat, validity: ValidityModel) -> Frame {
    Frame { shape, param: 0, validity, len, buffers: seq![], children: seq![] }
}

impl Decoded {
    /// What the array's frame says.
    pub open spec fn frame(self) -> Frame
        decreases self,
    {
        match self {
            Decoded::Null { len } => bare_frame(
                shape::NULL,
                len as nat,
                ValidityModel::NonNullable,
            ),
            Decoded::Bool(b) => Frame {
                buffers: seq![b.bits@],
                ..bare_frame(shape::BOOL, b.len as nat, b.validity@)
            },
            Decoded::Primitive(p) => Frame {
                param: p.ptype.tag(),
                buffers: seq![p.values@],
                ..bare_frame(shape::PRIMITIVE, p.len as nat, p.validity@)
            },
            Decoded::Decimal(d) => Frame {
                param: d.values_type.tag(),
                buffers: seq![d.values@],
                ..bare_frame(shape::DECIMAL, d.len as nat, d.validity@)
            },
            Decoded::VarBinView(v) => Frame {
                buffers: seq![v.views@] + owned_contents(v.data@),
                ..bare_frame(shape::VAR_BIN_VIEW, v.len as nat, v.validity@)
            },
            Decoded::List { len, offsets, sizes, elements, validity } => Frame {
                children: seq![offsets.frame(), sizes.frame(), elements.frame()],
                ..bare_frame(shape::LIST, len as nat, validity@)
            },
            Decoded::FixedSizeList { len, elements, validity } => Frame {
                children: seq![elements.frame()],
                ..bare_frame(shape::FIXED_SIZE_LIST, len as nat, validity@)
            },
            Decoded::Struct { len, fields, validity } => Frame {
                children: decoded_frames(fields@),
                ..bare_frame(shape::STRUCT, len as nat, validity@)
            },
            Decoded::Union { len, type_ids, variants } => Frame {
                children: seq![type_ids.frame()] + decoded_frames(variants@),
                ..bare_frame(shape::UNION, len as nat, ValidityModel::NonNullable)
            },
            Decoded::Mapping { entries } => Frame {
                children: seq![entries.frame()],
                ..bare_frame(shape::MAP, entries.frame().len, ValidityModel::NonNullable)
            },
            Decoded::Extension { storage } => Frame {
                children: seq![storage.frame()],
                ..bare_frame(shape::EXTENSION, storage.frame().len, ValidityModel::NonNullable)
            },
        }
    }

    /// Logical element count.
    pub fn len(&self) -> (len: usize)
        ensures
            len == self.frame().len,
        decreases self,
    {
        match self {
            Decoded::Null { len } => *len,
            Decoded::List { len, .. } => *len,
            Decoded::FixedSizeList { len, .. } => *len,
            Decoded::Struct { len, .. } => *len,
            Decoded::Union { len, .. } => *len,
            Decoded::Bool(b) => b.len,
            Decoded::Primitive(p) => p.len,
            Decoded::Decimal(d) => d.len,
            Decoded::VarBinView(v) => v.len,
            Decoded::Mapping { entries } => entries.len(),
            Decoded::Extension { storage } => storage.len(),
        }
    }

    /// Whether the array is empty.
    pub fn is_empty(&self) -> (empty: bool)
        ensures
            empty == (self.frame().len == 0),
    {
        self.len() == 0
    }
}

/// Whether a shape's validity lives in a child, or nowhere.
pub open spec fn derives_validity(shape: u8) -> bool {
    shape == shape::NULL || shape == shape::UNION || shape == shape::MAP || shape
        == shape::EXTENSION
}

/// The frames of a sequence of arrays, owned.
pub open spec fn owned_frames(frames: Seq<Frame>) -> Seq<Frame>
    decreases frames,
{
    Seq::new(
        frames.len(),
        |i: int|
            if 0 <= i < frames.len() {
                frames[i].owned()
            } else {
                arbitrary()
            },
    )
}

impl Frame {
    /// The frame of an owned copy: the same array, with the validity of the shapes that take
    /// theirs from a child left out, and the length of a map or extension taken from its child.
    pub open spec fn owned(self) -> Frame
        decreases self,
    {
        let children = owned_frames(self.children);
        Frame {
            validity: if derives_validity(self.shape) {
                ValidityModel::NonNullable
            } else {
                self.validity
            },
            len: if self.shape == shape::MAP || self.shape == shape::EXTENSION {
                children[0].len
            } else {
                self.len
            },
            children,
            ..self
        }
    }
}

/// Owned copies of `buffers`.
fn copy_buffers(buffers: &Vec<&[u8]>) -> (copies: Vec<Vec<u8>>)
    ensures
        owned_contents(copies@) == buffer_contents(buffers@),
{
    let mut copies: Vec<Vec<u8>> = Vec::new();
    let mut i: usize = 0;
    while i < buffers.len()
        invariant
            i <= buffers@.len(),
            copies@.len() == i,
            forall|j: int| 0 <= j < i ==> (#[trigger] copies@[j])@ == buffers@[j]@,
        decreases buffers@.len() - i,
    {
        copies.push(slice_to_vec(buffers[i]));
        i = i + 1;
    }
    assert(owned_contents(copies@) =~= buffer_contents(buffers@));
    copies
}

impl Decoded {
    /// An owned copy of a host-supplied array.
    pub fn from_view(view: &ArrayView<'_>) -> (copy: Self)
        ensures
            copy.frame() == view.frame().owned(),
        decreases view,
    {
        let validity = view.validity.to_owned();
        let copy = match &view.kind {
            ArrayKind::Null => Decoded::Null { len: view.len },
            ArrayKind::Bool { bits } => Decoded::Bool(
                DecodedBool { len: view.len, bits: slice_to_vec(bits), validity },
            ),
            ArrayKind::Primitive { ptype, values } => Decoded::Primitive(
                DecodedPrimitive {
                    ptype: *ptype,
                    len: view.len,
                    values: slice_to_vec(values),
                    validity,
                },
            ),
            ArrayKind::Decimal { values_type, values } => Decoded::Decimal(
                DecodedDecimal {
                    values_type: *values_type,
                    len: view.len,
                    values: slice_to_vec(values),
                    validity,
                },
            ),
            ArrayKind::VarBinView { views, data } => Decoded::VarBinView(
                DecodedVarBinView {
                    len: view.len,
                    views: slice_to_vec(views),
                    data: copy_buffers(data),
                    validity,
                },
            ),
            ArrayKind::List { offsets, sizes, elements } => Decoded::List {
                len: view.len,
                offsets: Box::new(Self::from_view(offsets)),
                sizes: Box::new(Self::from_view(sizes)),
                elements: Box::new(Self::from_view(elements)),
                validity,
            },
            ArrayKind::FixedSizeList { elements } => Decoded::FixedSizeList {
                len: view.len,
                elements: Box::new(Self::from_view(elements)),
                validity,
            },
            ArrayKind::Struct { fields } => Decoded::Struct {
                len: view.len,
                fields: Self::from_views(fields),
                validity,
            },
            ArrayKind::Union { type_ids, variants } => Decoded::Union {
                len: view.len,
                type_ids: Box::new(Self::from_view(type_ids)),
                variants: Self::from_views(variants),
            },
            ArrayKind::Mapping { entries } => Decoded::Mapping {
                entries: Box::new(Self::from_view(entries)),
            },
            ArrayKind::Extension { storage } => Decoded::Extension {
                storage: Box::new(Self::from_view(storage)),
            },
        };
        assert(copy.frame().buffers =~= view.frame().owned().buffers);
        assert(copy.frame().children =~= view.frame().owned().children);
        copy
    }

    /// Owned copies of host-supplied arrays.
    fn from_views(views: &Vec<ArrayView<'_>>) -> (copies: Vec<Decoded>)
        ensures
            decoded_frames(copies@) == owned_frames(view_frames(views@)),
        decreases views,
    {
        let mut copies: Vec<Decoded> = Vec::new();
        let mut i: usize = 0;
        while i < views.len()
            invariant
                i <= views@.len(),
                copies@.len() == i,
                forall|j: int|
                    0 <= j < i ==> (#[trigger] copies@[j]).frame() == views@[j].frame().owned(),
            decreases views@.len() - i,
        {
            copies.push(Self::from_view(&views[i]));
            i = i + 1;
        }
        assert(decoded_frames(copies@) =~= owned_frames(view_frames(views@)));
        copies
    }
}

/// Whether every index names one of `len` elements.
pub open spec fn in_bounds(indices: Seq<u32>, len: int) -> bool {
    forall|i: int| 0 <= i < indices.len() ==> (#[trigger] indices[i]) < len
}

/// Whether `values` holds a whole `width`-byte element at every index.
pub open spec fn holds_elements(values: Seq<u8>, width: int, indices: Seq<u32>) -> bool {
    forall|i: int|
        0 <= i < indices.len() ==> ((#[trigger] indices[i]) + 1) * width <= values.len()
}

/// The `width`-byte elements of `values` at `indices`, one after the other.
pub open spec fn gather(values: Seq<u8>, width: int, indices: Seq<u32>) -> Seq<u8>
    decreases indices.len(),
{
    if indices.len() == 0 {
        Seq::empty()
    } else {
        gather(values, width, indices.drop_last()) + values.subrange(
            indices.last() * width,
            (indices.last() + 1) * width,
        )
    }
}

/// The positions of the elements of the lists at `indices`, when every list has `size` of them.
pub open spec fn element_positions(indices: Seq<u32>, size: int) -> Seq<int>
    decreases indices.len(),
{
    if indices.len() == 0 {
        Seq::empty()
    } else {
        element_positions(indices.drop_last(), size) + Seq::new(
            size as nat,
            |k: int| indices.last() * size + k,
        )
    }
}

/// Positions as `u32` indices.
pub open spec fn as_indices(positions: Seq<int>) -> Seq<u32> {
    Seq::new(positions.len(), |i: int| positions[i] as u32)
}

/// Whether every position is an `u32`.
pub open spec fn positions_fit(positions: Seq<int>) -> bool {
    forall|i: int| 0 <= i < positions.len() ==> (#[trigger] positions[i]) <= u32::MAX
}

/// The gathers of row-aligned children, or the first error among them.
pub open spec fn take_all(frames: Seq<Frame>, indices: Seq<u32>) -> Result<Seq<Frame>, GuestError>
    decreases frames,
{
    if frames.len() == 0 {
        Ok(Seq::empty())
    } else {
        match take_all(frames.drop_last(), indices) {
            Err(e) => Err(e),
            Ok(taken) => match frames.last().take(indices) {
                Err(e) => Err(e),
                Ok(last) => Ok(taken.push(last)),
            },
        }
    }
}

/// Whether a gather of row-aligned children, one after the other until one fails, only reads
/// elements that are there.
pub open spec fn all_cover(frames: Seq<Frame>, indices: Seq<u32>) -> bool
    decreases frames,
{
    frames.len() > 0 ==> {
        &&& all_cover(frames.drop_last(), indices)
        &&& take_all(frames.drop_last(), indices) is Ok ==> frames.last().covers(indices)
    }
}

impl Frame {
    /// The number of elements in each list of a fixed-size list.
    pub open spec fn list_size(self) -> int {
        if self.len == 0 {
            0
        } else {
            self.children[0].len as int / self.len as int
        }
    }

    /// The width of one fixed-width element.
    pub open spec fn element_width(self) -> int {
        if self.shape == shape::PRIMITIVE {
            PType::of_tag(self.param as int)->0.width() as int
        } else if self.shape == shape::DECIMAL {
            DecimalType::of_tag(self.param as int)->0.width() as int
        } else {
            VIEW_SIZE as int
        }
    }

    /// The elements at `indices`, in order, or an error when an index is out of bounds or a
    /// position in the elements of a fixed-size list does not fit an index.
    pub open spec fn take(self, indices: Seq<u32>) -> Result<Frame, GuestError>
        decreases self,
    {
        let out = Frame {
            len: indices.len(),
            validity: if derives_validity(self.shape) {
                ValidityModel::NonNullable
            } else {
                self.validity.take(indices)
            },
            ..self
        };
        if !in_bounds(indices, self.len as int) {
            Err(GuestError::of("take index out of bounds"))
        } else if self.shape == shape::NULL {
            Ok(out)
        } else if self.shape == shape::BOOL {
            Ok(
                Frame {
                    buffers: seq![
                        pack(
                            |i: int| bit_at(self.buffers[0], indices[i] as int),
                            indices.len() as int,
                        ),
                    ],
                    ..out
                },
            )
        } else if self.shape == shape::PRIMITIVE || self.shape == shape::DECIMAL || self.shape
            == shape::VAR_BIN_VIEW {
            Ok(
                Frame {
                    buffers: self.buffers.update(
                        0,
                        gather(self.buffers[0], self.element_width(), indices),
                    ),
                    ..out
                },
            )
        } else if self.shape == shape::LIST && self.children.len() == 3 {
            match take_all(self.children.take(2), indices) {
                Err(e) => Err(e),
                Ok(taken) => Ok(Frame { children: taken.push(self.children[2].owned()), ..out }),
            }
        } else if self.shape == shape::FIXED_SIZE_LIST && self.children.len() == 1 {
            let positions = element_positions(indices, self.list_size());
            if !positions_fit(positions) {
                Err(GuestError::of("index overflow"))
            } else {
                match self.children[0].take(as_indices(positions)) {
                    Err(e) => Err(e),
                    Ok(taken) => Ok(Frame { children: seq![taken], ..out }),
                }
            }
        } else {
            match take_all(self.children, indices) {
                Err(e) => Err(e),
                Ok(taken) => Ok(Frame { children: taken, ..out }),
            }
        }
    }

    /// Whether a gather at `indices` only reads elements that the buffers hold.
    pub open spec fn covers(self, indices: Seq<u32>) -> bool
        decreases self,
    {
        in_bounds(indices, self.len as int) ==> {
            if self.shape == shape::PRIMITIVE || self.shape == shape::DECIMAL || self.shape
                == shape::VAR_BIN_VIEW {
                holds_elements(self.buffers[0], self.element_width(), indices)
            } else if self.shape == shape::LIST && self.children.len() == 3 {
                all_cover(self.children.take(2), indices)
            } else if self.shape == shape::FIXED_SIZE_LIST && self.children.len() == 1 {
                let positions = element_positions(indices, self.list_size());
                positions_fit(positions) ==> self.children[0].covers(as_indices(positions))
            } else {
                all_cover(self.children, indices)
            }
        }
    }

    /// A gather has one element per index.
    pub proof fn law_take_len(self, indices: Seq<u32>)
        ensures
            self.take(indices) matches Ok(taken) ==> taken.len == indices.len(),
    {
    }
}

/// The indices of `n` elements, in order.
pub open spec fn all_indices(n: nat) -> Seq<u32> {
    Seq::new(n, |i: int| i as u32)
}

/// Whether two bitmaps of the same size agree on their first `n` bits.
pub open spec fn same_bits(a: Seq<u8>, b: Seq<u8>, n: int) -> bool {
    &&& a.len() == b.len()
    &&& forall|i: int| 0 <= i < n ==> #[trigger] bit_at(a, i) == bit_at(b, i)
}

/// Whether two validities over `n` elements say the same of each of them, in the same form.
pub open spec fn same_validity(a: ValidityModel, b: ValidityModel, n: int) -> bool {
    match (a, b) {
        (ValidityModel::Bitmap(a), ValidityModel::Bitmap(b)) => same_bits(a, b, n),
        _ => a == b,
    }
}

impl Frame {
    /// Whether two frames hold the same elements in the same layout. The padding of bitmaps may
    /// differ.
    pub open spec fn same_elements(self, other: Frame) -> bool
        decreases self,
    {
        &&& self.shape == other.shape
        &&& self.param == other.param
        &&& self.len == other.len
        &&& same_validity(self.validity, other.validity, self.len as int)
        &&& if self.shape == shape::BOOL && self.buffers.len() == 1 {
            &&& other.buffers.len() == 1
            &&& same_bits(self.buffers[0], other.buffers[0], self.len as int)
        } else {
            self.buffers == other.buffers
        }
        &&& self.children.len() == other.children.len()
        &&& forall|i: int|
            0 <= i < self.children.len() ==> (#[trigger] self.children[i]).same_elements(
                other.children[i],
            )
    }

    /// Whether the frame has what its shape reads, and its bitmaps, values and children are as
    /// long as its length asks for.
    pub open spec fn exact(self) -> bool
        decreases self,
    {
        &&& self.interpret() == Ok::<Frame, GuestError>(self)
        &&& self.len <= u32::MAX
        &&& self.validity matches ValidityModel::Bitmap(bits) ==> bits.len() == bitmap_len(
            self.len as int,
        )
        &&& if self.shape == shape::NULL {
            true
        } else if self.shape == shape::BOOL {
            self.buffers[0].len() == bitmap_len(self.len as int)
        } else if self.shape == shape::PRIMITIVE || self.shape == shape::DECIMAL || self.shape
            == shape::VAR_BIN_VIEW {
            self.buffers[0].len() == self.len * self.element_width()
        } else if self.shape == shape::LIST {
            &&& self.children[0].exact() && self.children[0].len == self.len
            &&& self.children[1].exact() && self.children[1].len == self.len
        } else if self.shape == shape::FIXED_SIZE_LIST {
            &&& self.children[0].exact()
            &&& self.children[0].len == self.len * self.list_size()
        } else {
            forall|i: int|
                0 <= i < self.children.len() ==> (#[trigger] self.children[i]).exact()
                    && self.children[i].len == self.len
        }
    }

    /// Taking all elements in order gives what an owned copy holds.
    pub proof fn law_take_all_elements(self)
        requires
            self.exact(),
        ensures
            self.covers(all_indices(self.len)),
            self.take(all_indices(self.len)) matches Ok(taken) && taken.same_elements(
                self.owned(),
            ),
        decreases self, 1nat,
    {
        let indices = all_indices(self.len);
        let owned = self.owned();
        assert(in_bounds(indices, self.len as int));
        if let ValidityModel::Bitmap(bits) = self.validity {
            lemma_packed_same(bits, self.len);
        }
        if self.shape == shape::NULL {
            assert(all_cover(self.children, indices));
        } else if self.shape == shape::BOOL {
            lemma_packed_same(self.buffers[0], self.len);
            assert(all_cover(self.children, indices));
        } else if self.shape == shape::PRIMITIVE || self.shape == shape::DECIMAL || self.shape
            == shape::VAR_BIN_VIEW {
            let width = self.element_width();
            lemma_gather_all(self.buffers[0], width, self.len);
            assert(self.buffers[0].take(self.len * width) =~= self.buffers[0]);
            assert(self.buffers.update(0, self.buffers[0]) =~= self.buffers);
        } else if self.shape == shape::LIST {
            let pair = self.children.take(2);
            assert forall|i: int| 0 <= i < pair.len() implies (#[trigger] pair[i]).exact()
                && pair[i].len == self.len by {
                assert(pair[i] == self.children[i]);
            }
            lemma_take_all_elements(pair, self.len);
            let taken = self.take(indices)->Ok_0;
            self.children[2].owned().lemma_same_elements();
            assert forall|i: int| 0 <= i < taken.children.len() implies (
            #[trigger] taken.children[i]).same_elements(owned.children[i]) by {
                if i < 2 {
                    assert(taken.children[i] == take_all(pair, indices)->Ok_0[i]);
                    assert(pair[i] == self.children[i]);
                }
            }
        } else if self.shape == shape::FIXED_SIZE_LIST {
            let size = self.list_size();
            lemma_all_positions(self.len, size);
            let positions = element_positions(indices, size);
            assert(as_indices(positions) =~= all_indices(self.children[0].len));
            assert(self.children.len() == 1) by {
                assert(self.interpret()->Ok_0.children == self.children.take(1));
            }
            assert(positions.len() == self.children[0].len);
            assert forall|k: int| 0 <= k < positions.len() implies (#[trigger] positions[k])
                <= u32::MAX by {
                assert(positions[k] == k);
                assert(self.children[0].len <= u32::MAX) by {
                    reveal_with_fuel(Frame::exact, 2);
                }
            }
            self.children[0].law_take_all_elements();
            let taken = self.take(indices)->Ok_0;
            assert(taken.children[0].same_elements(owned.children[0]));
        } else {
            lemma_take_all_elements(self.children, self.len);
            let taken = self.take(indices)->Ok_0;
            assert(taken.children == take_all(self.children, indices)->Ok_0);
            assert forall|i: int| 0 <= i < taken.children.len() implies (
            #[trigger] taken.children[i]).same_elements(owned.children[i]) by {
                assert(owned.children[i] == self.children[i].owned());
            }
        }
    }

    /// A frame has the same elements as itself.
    proof fn lemma_same_elements(self)
        ensures
            self.same_elements(self),
        decreases self,
    {
        assert forall|i: int| 0 <= i < self.children.len() implies (
        #[trigger] self.children[i]).same_elements(self.children[i]) by {
            self.children[i].lemma_same_elements();
        }
    }
}

/// Packing the bits of a bitmap of the right size gives the same bits.
proof fn lemma_packed_same(bits: Seq<u8>, n: nat)
    requires
        bits.len() == bitmap_len(n as int),
        n <= u32::MAX,
    ensures
        same_bits(
            pack(|i: int| bit_at(bits, all_indices(n)[i] as int), all_indices(n).len() as int),
            bits,
            n as int,
        ),
{
    let f = |i: int| bit_at(bits, all_indices(n)[i] as int);
    assert forall|i: int| 0 <= i < n implies #[trigger] bit_at(pack(f, n as int), i) == bit_at(
        bits,
        i,
    ) by {
        crate::bits::lemma_pack_bit(f, n as int, i);
    }
}

/// The first `n` elements, gathered in order, are the first bytes.
proof fn lemma_gather_all(values: Seq<u8>, width: int, n: nat)
    requires
        0 <= width,
        n * width <= values.len(),
        n <= u32::MAX,
    ensures
        holds_elements(values, width, all_indices(n)),
        gather(values, width, all_indices(n)) == values.take(n * width),
    decreases n,
{
    let indices = all_indices(n);
    assert forall|i: int| 0 <= i < indices.len() implies ((#[trigger] indices[i]) + 1) * width
        <= values.len() by {
        assert((i + 1) * width <= n * width) by (nonlinear_arith)
            requires
                i + 1 <= n,
                0 <= width,
        ;
    }
    if n > 0 {
        let before = (n - 1) as nat;
        assert(n * width == before * width + width) by (nonlinear_arith)
            requires
                n == before + 1,
        ;
        assert(0 <= before * width) by (nonlinear_arith)
            requires
                0 <= width,
        ;
        lemma_gather_all(values, width, before);
        assert(indices.drop_last() =~= all_indices(before));
        assert(indices.last() == before);
        assert((before + 1) * width == n * width);
        assert(values.take(before * width) + values.subrange(before * width, n * width)
            =~= values.take(n * width));
    } else {
        assert(0 * width == 0) by (nonlinear_arith);
        assert(values.take(0) =~= Seq::empty());
    }
}

/// The positions of the elements of the first `n` lists are all positions, in order.
proof fn lemma_all_positions(n: nat, size: int)
    requires
        0 <= size,
        n <= u32::MAX,
    ensures
        element_positions(all_indices(n), size) == Seq::new((n * size) as nat, |k: int| k),
    decreases n,
{
    let indices = all_indices(n);
    if n > 0 {
        let before = (n - 1) as nat;
        assert(n * size == before * size + size) by (nonlinear_arith)
            requires
                n == before + 1,
        ;
        assert(0 <= before * size) by (nonlinear_arith)
            requires
                0 <= size,
        ;
        lemma_all_positions(before, size);
        assert(indices.drop_last() =~= all_indices(before));
        assert(indices.last() == before);
        assert(element_positions(indices, size) =~= Seq::new((n * size) as nat, |k: int| k));
    } else {
        assert(0 * size == 0) by (nonlinear_arith);
        assert(element_positions(indices, size) =~= Seq::new(0, |k: int| k));
    }
}

/// Taking all elements of row-aligned frames, in order, gives what owned copies hold.
proof fn lemma_take_all_elements(frames: Seq<Frame>, n: nat)
    requires
        forall|i: int|
            0 <= i < frames.len() ==> (#[trigger] frames[i]).exact() && frames[i].len == n,
    ensures
        all_cover(frames, all_indices(n)),
        take_all(frames, all_indices(n)) is Ok,
        take_all(frames, all_indices(n))->Ok_0.len() == frames.len(),
        forall|i: int|
            0 <= i < frames.len() ==> (#[trigger] take_all(
                frames,
                all_indices(n),
            )->Ok_0[i]).same_elements(frames[i].owned()),
        forall|i: int| 0 <= i < frames.len() ==> (#[trigger] frames[i]).owned().len == n,
    decreases frames, 0nat,
{
    let indices = all_indices(n);
    if frames.len() > 0 {
        let front = frames.drop_last();
        let last = frames.last();
        assert forall|i: int| 0 <= i < front.len() implies (#[trigger] front[i]).exact()
            && front[i].len == n by {
            assert(front[i] == frames[i]);
        }
        lemma_take_all_elements(front, n);
        assert(frames[frames.len() - 1] == last);
        last.law_take_all_elements();
        last.law_take_len(indices);
        assert forall|i: int| 0 <= i < frames.len() implies (#[trigger] take_all(
            frames,
            indices,
        )->Ok_0[i]).same_elements(frames[i].owned()) by {
            if i < front.len() {
                assert(take_all(frames, indices)->Ok_0[i] == take_all(front, indices)->Ok_0[i]);
                assert(front[i] == frames[i]);
            }
        }
        assert forall|i: int| 0 <= i < frames.len() implies (#[trigger] frames[i]).owned().len
            == n by {
            if i < front.len() {
                assert(front[i] == frames[i]);
                assert(front[i].owned().len == n);
            }
        }
    }
}

/// Gather `width`-byte elements at `indices` out of `values`.
pub fn gather_fixed(values: &[u8], width: usize, indices: &[u32]) -> (out: Vec<u8>)
    requires
        holds_elements(values@, width as int, indices@),
    ensures
        out@ == gather(values@, width as int, indices@),
{
    let mut out: Vec<u8> = Vec::new();
    let mut row: usize = 0;
    assert(indices@.take(0) =~= Seq::empty());
    while row < indices.len()
        invariant
            row <= indices@.len(),
            holds_elements(values@, width as int, indices@),
            out@ == gather(values@, width as int, indices@.take(row as int)),
        decreases indices@.len() - row,
    {
        let index: usize = indices[row] as usize;
        assert((indices@[row as int] + 1) * width <= values@.len());
        assert((index + 1) * width == index * width + width) by (nonlinear_arith);
        assert(0 <= index * width) by (nonlinear_arith);
        assert(values.len() <= usize::MAX);
        let start: usize = index * width;
        push_bytes(&mut out, slice_subrange(values, start, start + width));
        row = row + 1;
        assert(indices@.take(row as int).drop_last() =~= indices@.take(row - 1));
    }
    assert(indices@.take(row as int) =~= indices@);
    out
}

/// The gather of a first child and the rest, in that order.
proof fn lemma_take_all_cons(first: Frame, rest: Seq<Frame>, indices: Seq<u32>)
    ensures
        take_all(seq![first] + rest, indices) == (match first.take(indices) {
            Err(e) => Err(e),
            Ok(taken) => match take_all(rest, indices) {
                Err(e) => Err(e),
                Ok(others) => Ok(seq![taken] + others),
            },
        }),
        all_cover(seq![first] + rest, indices) == (first.covers(indices) && (first.take(
            indices,
        ) is Ok ==> all_cover(rest, indices))),
    decreases rest.len(),
{
    let all = seq![first] + rest;
    if rest.len() == 0 {
        assert(all.drop_last() =~= Seq::empty());
        assert(take_all(all.drop_last(), indices) == Ok::<Seq<Frame>, GuestError>(Seq::empty()));
        assert(all_cover(all.drop_last(), indices) && all_cover(rest, indices));
        assert(all.last() == first);
        if let Ok(taken) = first.take(indices) {
            assert(Seq::<Frame>::empty().push(taken) =~= seq![taken] + Seq::<Frame>::empty());
        }
    } else {
        assert(all.drop_last() =~= seq![first] + rest.drop_last());
        lemma_take_all_cons(first, rest.drop_last(), indices);
        if let (Ok(taken), Ok(others)) = (
            first.take(indices),
            take_all(rest.drop_last(), indices),
        ) {
            if let Ok(last) = rest.last().take(indices) {
                assert((seq![taken] + others).push(last) =~= seq![taken] + others.push(last));
            }
        }
    }
}

/// An error in a prefix of the children is the error of the children, and a prefix of covered
/// children is covered.
proof fn lemma_take_all_prefix(frames: Seq<Frame>, indices: Seq<u32>, k: int)
    requires
        0 <= k <= frames.len(),
    ensures
        take_all(frames.take(k), indices) matches Err(e) ==> take_all(frames, indices) == Err::<
            Seq<Frame>,
            _,
        >(e),
        all_cover(frames, indices) ==> all_cover(frames.take(k), indices),
    decreases frames.len() - k,
{
    if k < frames.len() {
        lemma_take_all_prefix(frames, indices, k + 1);
        assert(frames.take(k + 1).drop_last() =~= frames.take(k));
    } else {
        assert(frames.take(k) =~= frames);
    }
}

impl Decoded {
    /// The elements of `view` at `indices`, in order: a gather over any dtype.
    ///
    /// This is the primitive every re-arranging encoding needs. It follows the canonical layouts
    /// to their cheapest reading: string views and list offsets are gathered while the bytes they
    /// reference are copied through once; structs, unions, maps, and extension storage recurse.
    /// Every index is bounds-checked against `view.len`.
    #[verifier::rlimit(80)]
    pub fn take(view: &ArrayView<'_>, indices: &[u32]) -> (result: GuestResult<Self>)
        requires
            view.frame().covers(indices@),
        ensures
            match result {
                Ok(taken) => {
                    &&& view.frame().take(indices@) == Ok::<_, GuestError>(taken.frame())
                    &&& forall|i: int|
                        0 <= i < indices@.len() ==> taken.frame().same_row(
                            i,
                            view.frame(),
                            #[trigger] indices@[i] as int,
                        )
                },
                Err(e) => view.frame().take(indices@) == Err::<Frame, _>(e),
            },
        decreases view,
    {
        let mut row: usize = 0;
        while row < indices.len()
            invariant
                row <= indices@.len(),
                forall|i: int| 0 <= i < row ==> (#[trigger] indices@[i]) < view.len,
            decreases indices@.len() - row,
        {
            if indices[row] as usize >= view.len {
                assert(!in_bounds(indices@, view.len as int)) by {
                    assert(indices@[row as int] >= view.len);
                }
                return Err(GuestError::new("take index out of bounds"));
            }
            row = row + 1;
        }
        assert(in_bounds(indices@, view.frame().len as int));
        let len: usize = indices.len();
        let validity = view.validity.take(indices);
        let ghost frame = view.frame();
        let ghost expected = frame.take(indices@);
        let taken = match &view.kind {
            ArrayKind::Null => Decoded::Null { len },
            ArrayKind::Bool { bits } => Decoded::Bool(
                DecodedBool { len, bits: gather_bits(bits, indices), validity },
            ),
            ArrayKind::Primitive { ptype, values } => {
                proof {
                    ptype.lemma_tag_round_trip();
                }
                Decoded::Primitive(
                    DecodedPrimitive {
                        ptype: *ptype,
                        len,
                        values: gather_fixed(values, ptype.byte_width(), indices),
                        validity,
                    },
                )
            },
            ArrayKind::Decimal { values_type, values } => Decoded::Decimal(
                DecodedDecimal {
                    values_type: *values_type,
                    len,
                    values: gather_fixed(values, values_type.byte_width(), indices),
                    validity,
                },
            ),
            ArrayKind::VarBinView { views, data } => Decoded::VarBinView(
                DecodedVarBinView {
                    len,
                    views: gather_fixed(views, VIEW_SIZE, indices),
                    data: copy_buffers(data),
                    validity,
                },
            ),
            ArrayKind::List { offsets, sizes, elements } => {
                // List-view semantics: gathering the offsets and sizes re-arranges the lists
                // without touching the elements.
                proof {
                    assert(frame.children.take(2) =~= seq![offsets.frame()] + seq![sizes.frame()]);
                    lemma_take_all_cons(offsets.frame(), seq![sizes.frame()], indices@);
                    lemma_take_all_cons(sizes.frame(), Seq::empty(), indices@);
                    assert(seq![sizes.frame()] + Seq::<Frame>::empty() =~= seq![sizes.frame()]);
                }
                let offsets = match Self::take(offsets, indices) {
                    Ok(offsets) => offsets,
                    Err(e) => {
                        return Err(e);
                    },
                };
                let sizes = match Self::take(sizes, indices) {
                    Ok(sizes) => sizes,
                    Err(e) => {
                        return Err(e);
                    },
                };
                Decoded::List {
                    len,
                    offsets: Box::new(offsets),
                    sizes: Box::new(sizes),
                    elements: Box::new(Self::from_view(elements)),
                    validity,
                }
            },
            ArrayKind::FixedSizeList { elements } => {
                let size: usize = if view.len == 0 {
                    0
                } else {
                    elements.len / view.len
                };
                proof {
                    elements.lemma_frame_len();
                    assert(frame.children[0] == elements.frame());
                    assert(size == frame.list_size());
                    if view.len > 0 {
                        vstd::arithmetic::div_mod::lemma_fundamental_div_mod(
                            elements.len as int,
                            view.len as int,
                        );
                        vstd::arithmetic::mul::lemma_mul_is_commutative(
                            size as int,
                            view.len as int,
                        );
                    }
                }
                let positions = match Self::list_positions(indices, size, view.len, elements.len) {
                    Some(positions) => positions,
                    None => {
                        return Err(GuestError::new("index overflow"));
                    },
                };
                let elements = match Self::take(elements, positions.as_slice()) {
                    Ok(elements) => elements,
                    Err(e) => {
                        return Err(e);
                    },
                };
                Decoded::FixedSizeList { len, elements: Box::new(elements), validity }
            },
            ArrayKind::Struct { fields } => {
                let fields = match Self::take_views(fields, indices) {
                    Ok(fields) => fields,
                    Err(e) => {
                        return Err(e);
                    },
                };
                Decoded::Struct { len, fields, validity }
            },
            ArrayKind::Union { type_ids, variants } => {
                proof {
                    lemma_take_all_cons(type_ids.frame(), view_frames(variants@), indices@);
                }
                let type_ids = match Self::take(type_ids, indices) {
                    Ok(type_ids) => type_ids,
                    Err(e) => {
                        return Err(e);
                    },
                };
                let variants = match Self::take_views(variants, indices) {
                    Ok(variants) => variants,
                    Err(e) => {
                        return Err(e);
                    },
                };
                Decoded::Union { len, type_ids: Box::new(type_ids), variants }
            },
            ArrayKind::Mapping { entries } => {
                proof {
                    lemma_take_all_cons(entries.frame(), Seq::empty(), indices@);
                    assert(seq![entries.frame()] + Seq::<Frame>::empty() =~= frame.children);
                    entries.frame().law_take_len(indices@);
                }
                let entries = match Self::take(entries, indices) {
                    Ok(entries) => entries,
                    Err(e) => {
                        return Err(e);
                    },
                };
                Decoded::Mapping { entries: Box::new(entries) }
            },
            ArrayKind::Extension { storage } => {
                proof {
                    lemma_take_all_cons(storage.frame(), Seq::empty(), indices@);
                    assert(seq![storage.frame()] + Seq::<Frame>::empty() =~= frame.children);
                    storage.frame().law_take_len(indices@);
                }
                let storage = match Self::take(storage, indices) {
                    Ok(storage) => storage,
                    Err(e) => {
                        return Err(e);
                    },
                };
                Decoded::Extension { storage: Box::new(storage) }
            },
        };
        assert(taken.frame().buffers =~= expected->Ok_0.buffers);
        assert(taken.frame().children =~= expected->Ok_0.children);
        assert(expected == Ok::<_, GuestError>(taken.frame()));
        assert forall|i: int| 0 <= i < indices@.len() implies taken.frame().same_row(
            i,
            view.frame(),
            #[trigger] indices@[i] as int,
        ) by {
            lemma_view_legible(*view);
            view.frame().law_take_rows(indices@, i);
        }
        Ok(taken)
    }

    /// The positions of the elements of the lists at `indices`; `None` when one exceeds an index.
    fn list_positions(
        indices: &[u32],
        size: usize,
        n_lists: usize,
        n_elements: usize,
    ) -> (positions: Option<Vec<u32>>)
        requires
            in_bounds(indices@, n_lists as int),
            n_lists > 0 ==> n_lists * size <= n_elements,
        ensures
            ({
                let wanted = element_positions(indices@, size as int);
                match positions {
                    Some(found) => positions_fit(wanted) && found@ == as_indices(wanted),
                    None => !positions_fit(wanted),
                }
            }),
    {
        let mut positions: Vec<u32> = Vec::new();
        let mut row: usize = 0;
        assert(indices@.take(0) =~= Seq::empty());
        assert(as_indices(Seq::empty()) =~= positions@);
        while row < indices.len()
            invariant
                row <= indices@.len(),
                in_bounds(indices@, n_lists as int),
                n_lists > 0 ==> n_lists * size <= n_elements,
                positions_fit(element_positions(indices@.take(row as int), size as int)),
                positions@ == as_indices(
                    element_positions(indices@.take(row as int), size as int),
                ),
            decreases indices@.len() - row,
        {
            let ghost before = element_positions(indices@.take(row as int), size as int);
            let ghost after = element_positions(indices@.take(row + 1), size as int);
            let index: usize = indices[row] as usize;
            assert(indices@.take(row + 1).drop_last() =~= indices@.take(row as int));
            assert(index < n_lists) by {
                assert(indices@[row as int] < n_lists);
            }
            assert((index + 1) * size <= n_lists * size) by (nonlinear_arith)
                requires
                    index + 1 <= n_lists,
                    0 <= size,
            ;
            assert((index + 1) * size == index * size + size) by (nonlinear_arith);
            assert(0 <= index * size) by (nonlinear_arith);
            let start: usize = index * size;
            assert(after =~= before + Seq::new(size as nat, |k: int| start + k));
            let mut k: usize = 0;
            while k < size
                invariant
                    row < indices@.len(),
                    k <= size,
                    start + size <= usize::MAX,
                    positions_fit(before),
                    after == before + Seq::new(size as nat, |j: int| start + j),
                    positions@ == as_indices(after.take(before.len() + k)),
                    k > 0 ==> start + k - 1 <= u32::MAX,
                    after == element_positions(indices@.take(row + 1), size as int),
                decreases size - k,
            {
                let position: usize = start + k;
                if position > u32::MAX as usize {
                    proof {
                        assert(after[before.len() + k] > u32::MAX);
                        lemma_positions_prefix(indices@, size as int, row + 1);
                        assert(element_positions(indices@, size as int)[before.len() + k]
                            > u32::MAX);
                    }
                    return None;
                }
                positions.push(position as u32);
                k = k + 1;
                assert(as_indices(after.take(before.len() + k)) =~= as_indices(
                    after.take(before.len() + k - 1),
                ).push(position as u32));
            }
            assert(after.take(before.len() + k) =~= after);
            row = row + 1;
        }
        assert(indices@.take(row as int) =~= indices@);
        Some(positions)
    }

    /// Gather every one of `views`, stopping at the first that fails.
    fn take_views(views: &Vec<ArrayView<'_>>, indices: &[u32]) -> (result: GuestResult<
        Vec<Decoded>,
    >)
        requires
            all_cover(view_frames(views@), indices@),
        ensures
            match result {
                Ok(taken) => take_all(view_frames(views@), indices@) == Ok::<_, GuestError>(
                    decoded_frames(taken@),
                ),
                Err(e) => take_all(view_frames(views@), indices@) == Err::<Seq<Frame>, _>(e),
            },
        decreases views,
    {
        let ghost frames = view_frames(views@);
        let mut taken: Vec<Decoded> = Vec::new();
        let mut i: usize = 0;
        assert(frames.take(0) =~= Seq::empty());
        assert(decoded_frames(taken@) =~= Seq::empty());
        while i < views.len()
            invariant
                i <= views@.len(),
                frames == view_frames(views@),
                all_cover(frames, indices@),
                take_all(frames.take(i as int), indices@) == Ok::<_, GuestError>(
                    decoded_frames(taken@),
                ),
            decreases views@.len() - i,
        {
            proof {
                lemma_take_all_prefix(frames, indices@, i + 1);
                assert(frames.take(i + 1).drop_last() =~= frames.take(i as int));
                assert(frames.take(i + 1).last() == views@[i as int].frame());
            }
            match Self::take(&views[i], indices) {
                Ok(one) => {
                    let ghost before = taken@;
                    taken.push(one);
                    assert(decoded_frames(taken@) =~= decoded_frames(before).push(one.frame()));
                },
                Err(e) => {
                    return Err(e);
                },
            }
            i = i + 1;
        }
        assert(frames.take(i as int) =~= frames);
        Ok(taken)
    }
}

/// The positions of the first lists come first.
proof fn lemma_positions_prefix(indices: Seq<u32>, size: int, k: int)
    requires
        0 <= k <= indices.len(),
        0 <= size,
    ensures
        element_positions(indices.take(k), size).len() <= element_positions(indices, size).len(),
        element_positions(indices, size).take(
            element_positions(indices.take(k), size).len() as int,
        ) == element_positions(indices.take(k), size),
    decreases indices.len() - k,
{
    let part = element_positions(indices.take(k), size);
    if k < indices.len() {
        lemma_positions_prefix(indices, size, k + 1);
        let more = element_positions(indices.take(k + 1), size);
        assert(indices.take(k + 1).drop_last() =~= indices.take(k));
        assert(more.take(part.len() as int) =~= part);
        assert(element_positions(indices, size).take(part.len() as int) =~= more.take(
            part.len() as int,
        ));
    } else {
        assert(indices.take(k) =~= indices);
        assert(part.take(part.len() as int) =~= part);
    }
}

/// A trap while writing some of the trees is a trap of the whole.
proof fn lemma_encode_all_prefix(frames: Seq<Frame>, memory: Memory, k: int)
    requires
        0 <= k <= frames.len(),
        encode_all(frames.take(k), memory) is None,
    ensures
        encode_all(frames, memory) is None,
    decreases frames.len() - k,
{
    if k < frames.len() {
        assert(frames.take(k + 1).drop_last() =~= frames.take(k));
        lemma_encode_all_prefix(frames, memory, k + 1);
    } else {
        assert(frames.take(k) =~= frames);
    }
}

/// A trap while placing some of the buffers is a trap of the whole.
proof fn lemma_encode_buffers_prefix(buffers: Seq<Seq<u8>>, memory: Memory, k: int)
    requires
        0 <= k <= buffers.len(),
        encode_buffers(buffers.take(k), memory) is None,
    ensures
        encode_buffers(buffers, memory) is None,
    decreases buffers.len() - k,
{
    if k < buffers.len() {
        assert(buffers.take(k + 1).drop_last() =~= buffers.take(k));
        lemma_encode_buffers_prefix(buffers, memory, k + 1);
    } else {
        assert(buffers.take(k) =~= buffers);
    }
}

/// The encoded frame up to its children: the header, the buffer table and the child count.
pub open spec fn encode_head(frame: Frame, memory: Memory) -> Option<(Seq<u8>, Memory)> {
    match encode_validity(frame.validity, memory) {
        None => None,
        Some((ptr, with_validity)) => match encode_buffers(frame.buffers, with_validity) {
            None => None,
            Some((table, with_buffers)) => Some(
                (
                    frame.header(ptr) + table + u32_le(frame.children.len() as u32),
                    with_buffers,
                ),
            ),
        },
    }
}

/// Everything of an array but its children.
struct Parts<'d> {
    shape_tag: u8,
    param: u8,
    len: usize,
    validity: &'d Validity,
    buffers: Vec<&'d [u8]>,
}

/// Place a validity's bitmap in memory and return its pointer. `None` for a trap.
fn place_validity(memory: &mut LinearMemory, validity: &Validity) -> (ptr: Option<u32>)
    requires
        old(memory)@.wf(),
    ensures
        final(memory)@.wf(),
        match encode_validity(validity@, old(memory)@) {
            Some((address, after)) => ptr == Some(address) && final(memory)@ == after,
            None => ptr is None,
        },
{
    match validity {
        Validity::Bitmap(bits) => alloc_bytes(memory, bits.as_slice()),
        _ => Some(0),
    }
}

/// Place `buffers` in memory and append the table of their pointers and lengths. `false` for a
/// trap.
fn write_table(memory: &mut LinearMemory, out: &mut Vec<u8>, buffers: &Vec<&[u8]>) -> (done: bool)
    requires
        old(memory)@.wf(),
    ensures
        final(memory)@.wf(),
        match encode_buffers(buffer_contents(buffers@), old(memory)@) {
            Some((table, after)) => done && final(out)@ == old(out)@ + table && final(memory)@
                == after,
            None => !done,
        },
{
    let ghost start = memory@;
    let ghost before = out@;
    let ghost contents = buffer_contents(buffers@);
    let ghost mut table = Seq::<u8>::empty();
    let mut i: usize = 0;
    assert(contents.take(0) =~= Seq::empty());
    assert(out@ =~= before + table);
    while i < buffers.len()
        invariant
            i <= buffers@.len(),
            memory@.wf(),
            start == old(memory)@,
            contents == buffer_contents(buffers@),
            encode_buffers(contents.take(i as int), start) == Some((table, memory@)),
            out@ == before + table,
        decreases buffers@.len() - i,
    {
        let buffer: &[u8] = buffers[i];
        proof {
            assert(contents.take(i + 1).drop_last() =~= contents.take(i as int));
            assert(contents.take(i + 1).last() == buffer@);
        }
        match alloc_bytes(memory, buffer) {
            Some(ptr) => {
                push_u32(out, ptr);
                push_u32(out, buffer.len() as u32);
                proof {
                    let longer = table + u32_le(ptr) + u32_le(buffer@.len() as u32);
                    assert(out@ =~= before + longer);
                    table = longer;
                }
            },
            None => {
                proof {
                    lemma_encode_buffers_prefix(contents, start, i + 1);
                }
                return false;
            },
        }
        i = i + 1;
    }
    assert(contents.take(i as int) =~= contents);
    true
}

impl Decoded {
    /// Write this array as a frame in guest memory and return its address. `None` when the memory
    /// is exhausted.
    pub fn write(&self, memory: &mut LinearMemory) -> (address: Option<u32>)
        requires
            old(memory)@.wf(),
        ensures
            final(memory)@.wf(),
            match written(self.frame(), old(memory)@) {
                Some((ptr, after)) => address == Some(ptr) && final(memory)@ == after,
                None => address is None,
            },
    {
        let mut frame: Vec<u8> = Vec::new();
        if !self.write_into(memory, &mut frame) {
            return None;
        }
        assert(frame@ =~= encode(self.frame(), old(memory)@).unwrap().0);
        alloc_bytes(memory, frame.as_slice())
    }

    /// Append this array's frame to `out`, placing its bitmaps and buffers in memory. `false`
    /// when the memory is exhausted.
    pub fn write_into(&self, memory: &mut LinearMemory, out: &mut Vec<u8>) -> (done: bool)
        requires
            old(memory)@.wf(),
        ensures
            final(memory)@.wf(),
            match encode(self.frame(), old(memory)@) {
                Some((bytes, after)) => done && final(out)@ == old(out)@ + bytes
                    && final(memory)@ == after,
                None => !done,
            },
        decreases self,
    {
        let ghost start = memory@;
        let ghost before = out@;
        let kids = self.child_arrays();
        if !self.write_own(memory, out, kids.len()) {
            return false;
        }
        let ghost frames = self.frame().children;
        let ghost with_buffers = memory@;
        let ghost head = encode_head(self.frame(), start).unwrap().0;
        let ghost mut bytes = Seq::<u8>::empty();
        let mut i: usize = 0;
        assert(frames.take(0) =~= Seq::empty());
        assert(out@ =~= before + head + bytes);
        while i < kids.len()
            invariant
                i <= kids@.len(),
                memory@.wf(),
                start == old(memory)@,
                frames == self.frame().children,
                frames == array_frames(kids@),
                encode_head(self.frame(), start) == Some((head, with_buffers)),
                encode_all(frames.take(i as int), with_buffers) == Some((bytes, memory@)),
                out@ == before + head + bytes,
                forall|j: int|
                    0 <= j < kids@.len() ==> decreases_to!(self => #[trigger] kids@[j]),
            decreases kids@.len() - i,
        {
            proof {
                assert(frames.take(i + 1).drop_last() =~= frames.take(i as int));
                assert(frames.take(i + 1).last() == kids@[i as int].frame());
            }
            let ghost previous = memory@;
            if !kids[i].write_into(memory, out) {
                proof {
                    lemma_encode_all_prefix(frames, with_buffers, i + 1);
                }
                return false;
            }
            proof {
                let longer = bytes + encode(kids@[i as int].frame(), previous).unwrap().0;
                assert(out@ =~= before + head + longer);
                bytes = longer;
            }
            i = i + 1;
        }
        proof {
            assert(frames.take(i as int) =~= frames);
            assert(out@ =~= before + (head + bytes));
        }
        true
    }

    /// The arrays this one is made of, in wire order.
    fn child_arrays(&self) -> (kids: Vec<&Decoded>)
        ensures
            array_frames(kids@) == self.frame().children,
            forall|j: int| 0 <= j < kids@.len() ==> decreases_to!(self => #[trigger] kids@[j]),
    {
        let mut kids: Vec<&Decoded> = Vec::new();
        match self {
            Decoded::List { offsets, sizes, elements, .. } => {
                kids.push(offsets);
                kids.push(sizes);
                kids.push(elements);
            },
            Decoded::FixedSizeList { elements, .. } => {
                kids.push(elements);
            },
            Decoded::Struct { fields, .. } => {
                Self::push_all(&mut kids, fields);
                assert(array_frames(kids@) =~= decoded_frames(fields@));
            },
            Decoded::Union { type_ids, variants, .. } => {
                kids.push(type_ids);
                Self::push_all(&mut kids, variants);
                assert(array_frames(kids@) =~= seq![type_ids.frame()] + decoded_frames(
                    variants@,
                ));
            },
            Decoded::Mapping { entries } => {
                kids.push(entries);
            },
            Decoded::Extension { storage } => {
                kids.push(storage);
            },
            _ => {},
        }
        assert(array_frames(kids@) =~= self.frame().children);
        kids
    }

    /// Append references to `arrays`.
    fn push_all<'d>(kids: &mut Vec<&'d Decoded>, arrays: &'d Vec<Decoded>)
        ensures
            final(kids)@.len() == old(kids)@.len() + arrays@.len(),
            forall|j: int| 0 <= j < old(kids)@.len() ==> #[trigger] final(kids)@[j] == old(kids)@[j],
            forall|j: int|
                old(kids)@.len() <= j < final(kids)@.len() ==> #[trigger] final(kids)@[j]
                    == arrays@[j - old(kids)@.len()],
    {
        let mut i: usize = 0;
        while i < arrays.len()
            invariant
                i <= arrays@.len(),
                kids@.len() == old(kids)@.len() + i,
                forall|j: int| 0 <= j < old(kids)@.len() ==> #[trigger] kids@[j] == old(kids)@[j],
                forall|j: int|
                    old(kids)@.len() <= j < kids@.len() ==> #[trigger] kids@[j] == arrays@[j
                        - old(kids)@.len()],
            decreases arrays@.len() - i,
        {
            kids.push(&arrays[i]);
            i = i + 1;
        }
    }

    /// Append everything of this array's frame but its children.
    fn write_own(&self, memory: &mut LinearMemory, out: &mut Vec<u8>, n_children: usize) -> (done:
        bool)
        requires
            old(memory)@.wf(),
            n_children == self.frame().children.len(),
        ensures
            final(memory)@.wf(),
            match encode_head(self.frame(), old(memory)@) {
                Some((bytes, after)) => done && final(out)@ == old(out)@ + bytes
                    && final(memory)@ == after,
                None => !done,
            },
    {
        let none = Validity::NonNullable;
        let parts = self.parts(&none);
        let ghost start = memory@;
        let ghost before = out@;
        let validity_ptr: u32 = match place_validity(memory, parts.validity) {
            Some(ptr) => ptr,
            None => {
                return false;
            },
        };
        let ghost with_validity = memory@;
        out.push(parts.shape_tag);
        out.push(parts.param);
        out.push(parts.validity.tag());
        out.push(0);
        push_u32(out, parts.len as u32);
        push_u32(out, validity_ptr);
        push_u32(out, parts.buffers.len() as u32);
        let ghost header = self.frame().header(validity_ptr);
        assert(out@ =~= before + header);
        if !write_table(memory, out, &parts.buffers) {
            return false;
        }
        push_u32(out, n_children as u32);
        proof {
            let table = encode_buffers(self.frame().buffers, with_validity).unwrap().0;
            assert(out@ =~= before + (header + table + u32_le(n_children as u32)));
        }
        true
    }

    /// Append the descriptor of this flat array, placing its bitmap and buffers in memory. `false`
    /// when the memory is exhausted.
    pub fn write_array_into(&self, memory: &mut LinearMemory, out: &mut Vec<u8>) -> (done: bool)
        requires
            old(memory)@.wf(),
            self.frame().children.len() == 0,
            self.frame().buffers.len() <= 255,
        ensures
            final(memory)@.wf(),
            match array_descriptor_spec(self.frame(), old(memory)@) {
                Some((bytes, after)) => done && final(out)@ == old(out)@ + bytes
                    && final(memory)@ == after,
                None => !done,
            },
    {
        let none = Validity::NonNullable;
        let parts = self.parts(&none);
        let ghost before = out@;
        let validity_ptr: u32 = match place_validity(memory, parts.validity) {
            Some(ptr) => ptr,
            None => {
                return false;
            },
        };
        let ghost with_validity = memory@;
        let ghost frame = self.frame();
        out.push(parts.shape_tag);
        out.push(parts.param);
        out.push(parts.validity.tag());
        out.push(parts.buffers.len() as u8);
        push_u32(out, parts.len as u32);
        push_u32(out, validity_ptr);
        let ghost header = seq![
            frame.shape,
            frame.param,
            frame.validity.tag(),
            frame.buffers.len() as u8,
        ] + u32_le(frame.len as u32) + u32_le(validity_ptr);
        assert(out@ =~= before + header);
        if !write_table(memory, out, &parts.buffers) {
            return false;
        }
        proof {
            let table = encode_buffers(frame.buffers, with_validity).unwrap().0;
            assert(out@ =~= before + (header + table));
        }
        true
    }

    /// Everything of this array but its children; `none` stands for the validity of the shapes
    /// that take theirs from a child.
    fn parts<'d>(&'d self, none: &'d Validity) -> (parts: Parts<'d>)
        requires
            none@ == ValidityModel::NonNullable,
        ensures
            parts.shape_tag == self.frame().shape,
            parts.param == self.frame().param,
            parts.len == self.frame().len,
            parts.validity@ == self.frame().validity,
            buffer_contents(parts.buffers@) == self.frame().buffers,
    {
        let mut buffers: Vec<&'d [u8]> = Vec::new();
        let ghost frame = self.frame();
        let (shape_tag, param, len, validity): (u8, u8, usize, &Validity) = match self {
            Decoded::Null { len } => (shape::NULL, 0, *len, none),
            Decoded::Bool(b) => {
                buffers.push(b.bits.as_slice());
                (shape::BOOL, 0, b.len, &b.validity)
            },
            Decoded::Primitive(p) => {
                buffers.push(p.values.as_slice());
                (shape::PRIMITIVE, p.ptype.discriminant(), p.len, &p.validity)
            },
            Decoded::Decimal(d) => {
                buffers.push(d.values.as_slice());
                (shape::DECIMAL, d.values_type.discriminant(), d.len, &d.validity)
            },
            Decoded::VarBinView(v) => {
                buffers.push(v.views.as_slice());
                let mut i: usize = 0;
                while i < v.data.len()
                    invariant
                        i <= v.data@.len(),
                        buffers@.len() == i + 1,
                        buffers@[0]@ == v.views@,
                        forall|j: int|
                            0 <= j < i ==> (#[trigger] v.data@[j])@ == buffers@[j + 1]@,
                    decreases v.data@.len() - i,
                {
                    buffers.push(v.data[i].as_slice());
                    i = i + 1;
                }
                (shape::VAR_BIN_VIEW, 0, v.len, &v.validity)
            },
            Decoded::List { len, validity, .. } => (shape::LIST, 0, *len, validity),
            Decoded::FixedSizeList { len, validity, .. } => (
                shape::FIXED_SIZE_LIST,
                0,
                *len,
                validity,
            ),
            Decoded::Struct { len, validity, .. } => (shape::STRUCT, 0, *len, validity),
            Decoded::Union { len, .. } => (shape::UNION, 0, *len, none),
            Decoded::Mapping { entries } => (shape::MAP, 0, entries.len(), none),
            Decoded::Extension { storage } => (shape::EXTENSION, 0, storage.len(), none),
        };
        assert(buffer_contents(buffers@) =~= frame.buffers);
        Parts { shape_tag, param, len, validity, buffers }
    }
}

impl Decoded {
    /// The frame of an array has what its shape reads and nothing else.
    pub proof fn lemma_legible(self)
        ensures
            self.frame().legible(),
        decreases self,
    {
        let frame = self.frame();
        match self {
            Decoded::Primitive(p) => {
                p.ptype.lemma_tag_round_trip();
            },
            Decoded::List { offsets, sizes, elements, .. } => {
                offsets.lemma_legible();
                sizes.lemma_legible();
                elements.lemma_legible();
                assert(frame.children.take(3) =~= frame.children);
            },
            Decoded::FixedSizeList { elements, .. } => {
                elements.lemma_legible();
                assert(frame.children.take(1) =~= frame.children);
            },
            Decoded::Struct { fields, .. } => {
                lemma_all_legible(fields@);
            },
            Decoded::Union { type_ids, variants, .. } => {
                type_ids.lemma_legible();
                lemma_all_legible(variants@);
            },
            Decoded::Mapping { entries } => {
                entries.lemma_legible();
                assert(frame.children.take(1) =~= frame.children);
            },
            Decoded::Extension { storage } => {
                storage.lemma_legible();
                assert(frame.children.take(1) =~= frame.children);
            },
            _ => {},
        }
        let read = frame.interpret()->Ok_0;
        assert(read.buffers =~= frame.buffers);
        assert(read.children =~= frame.children);
        assert(frame.interpret() == Ok::<Frame, GuestError>(frame));
        assert forall|i: int| 0 <= i < frame.children.len() implies (
        #[trigger] frame.children[i]).legible() by {
            match self {
                Decoded::Struct { fields, .. } => {
                    assert(frame.children[i] == decoded_frames(fields@)[i]);
                },
                Decoded::Union { variants, .. } => {
                    if i > 0 {
                        assert(frame.children[i] == decoded_frames(variants@)[i - 1]);
                    }
                },
                _ => {},
            }
        }
    }

    /// What a kernel writes, its host reads: parsing at the address of a written array gives the
    /// array's frame back, for every array that fits the wire format.
    pub proof fn law_parse_written(self, memory: Memory)
        requires
            memory.wf(),
            self.frame().fits(0),
        ensures
            written(self.frame(), memory) matches Some((ptr, later)) ==> parse(later, ptr) == Ok::<
                _,
                GuestError,
            >(self.frame()),
    {
        self.lemma_legible();
        crate::frame::law_parse_written(self.frame(), memory);
    }
}

proof fn lemma_all_legible(arrays: Seq<Decoded>)
    ensures
        forall|i: int|
            0 <= i < arrays.len() ==> (#[trigger] decoded_frames(arrays)[i]).legible(),
    decreases arrays,
{
    assert forall|i: int| 0 <= i < arrays.len() implies (
    #[trigger] decoded_frames(arrays)[i]).legible() by {
        arrays[i].lemma_legible();
    }
}

/// The frame of a borrowed array has what its shape reads and nothing else.
proof fn lemma_view_legible(view: ArrayView<'_>)
    ensures
        view.frame().legible(),
    decreases view,
{
    let frame = view.frame();
    match view.kind {
        ArrayKind::Primitive { ptype, .. } => {
            ptype.lemma_tag_round_trip();
        },
        ArrayKind::List { offsets, sizes, elements } => {
            lemma_view_legible(*offsets);
            lemma_view_legible(*sizes);
            lemma_view_legible(*elements);
            assert(frame.children.take(3) =~= frame.children);
        },
        ArrayKind::FixedSizeList { elements } => {
            lemma_view_legible(*elements);
            assert(frame.children.take(1) =~= frame.children);
        },
        ArrayKind::Struct { fields } => {
            lemma_views_legible(fields@);
        },
        ArrayKind::Union { type_ids, variants } => {
            lemma_view_legible(*type_ids);
            lemma_views_legible(variants@);
        },
        ArrayKind::Mapping { entries } => {
            lemma_view_legible(*entries);
            assert(frame.children.take(1) =~= frame.children);
        },
        ArrayKind::Extension { storage } => {
            lemma_view_legible(*storage);
            assert(frame.children.take(1) =~= frame.children);
        },
        _ => {},
    }
    let read = frame.interpret()->Ok_0;
    assert(read.buffers =~= frame.buffers);
    assert(read.children =~= frame.children);
    assert(frame.interpret() == Ok::<Frame, GuestError>(frame));
    assert forall|i: int| 0 <= i < frame.children.len() implies (
    #[trigger] frame.children[i]).legible() by {
        match view.kind {
            ArrayKind::Struct { fields } => {
                assert(frame.children[i] == view_frames(fields@)[i]);
            },
            ArrayKind::Union { variants, .. } => {
                if i > 0 {
                    assert(frame.children[i] == view_frames(variants@)[i - 1]);
                }
            },
            _ => {},
        }
    }
}

proof fn lemma_views_legible(views: Seq<ArrayView<'_>>)
    ensures
        forall|i: int| 0 <= i < views.len() ==> (#[trigger] view_frames(views)[i]).legible(),
    decreases views,
{
    assert forall|i: int| 0 <= i < views.len() implies (
    #[trigger] view_frames(views)[i]).legible() by {
        lemma_view_legible(views[i]);
    }
}

/// Element `i` of a gather is the element that index `i` names.
pub proof fn law_gather_element(values: Seq<u8>, width: int, indices: Seq<u32>, i: int)
    requires
        0 <= width,
        0 <= i < indices.len(),
        holds_elements(values, width, indices),
    ensures
        gather(values, width, indices).len() == indices.len() * width,
        gather(values, width, indices).subrange(i * width, (i + 1) * width) == values.subrange(
            indices[i] * width,
            (indices[i] + 1) * width,
        ),
    decreases indices.len(),
{
    lemma_gather_len(values, width, indices);
    let front = indices.drop_last();
    lemma_gather_len(values, width, front);
    let n = front.len() as int;
    assert((n + 1) * width == n * width + width) by (nonlinear_arith);
    if i < n {
        assert forall|j: int| 0 <= j < front.len() implies ((#[trigger] front[j]) + 1) * width
            <= values.len() by {
            assert(front[j] == indices[j]);
        }
        law_gather_element(values, width, front, i);
        assert(0 <= i * width <= (i + 1) * width <= n * width) by (nonlinear_arith)
            requires
                0 <= i < n,
                0 <= width,
        ;
        assert(gather(values, width, indices).subrange(i * width, (i + 1) * width) =~= gather(
            values,
            width,
            front,
        ).subrange(i * width, (i + 1) * width));
        assert(front[i] == indices[i]);
    } else {
        assert(i == n);
        assert(gather(values, width, indices).subrange(i * width, (i + 1) * width)
            =~= values.subrange(indices[i] * width, (indices[i] + 1) * width));
    }
}

proof fn lemma_gather_len(values: Seq<u8>, width: int, indices: Seq<u32>)
    requires
        0 <= width,
        holds_elements(values, width, indices),
    ensures
        gather(values, width, indices).len() == indices.len() * width,
    decreases indices.len(),
{
    if indices.len() > 0 {
        let front = indices.drop_last();
        assert forall|j: int| 0 <= j < front.len() implies ((#[trigger] front[j]) + 1) * width
            <= values.len() by {
            assert(front[j] == indices[j]);
        }
        lemma_gather_len(values, width, front);
        let last = indices.last() as int;
        assert(indices[indices.len() - 1] == indices.last());
        assert((last + 1) * width == last * width + width) by (nonlinear_arith);
        assert(0 <= last * width) by (nonlinear_arith)
            requires
                0 <= last,
                0 <= width,
        ;
        assert(indices.len() * width == front.len() * width + width) by (nonlinear_arith)
            requires
                indices.len() == front.len() + 1,
        ;
    }
}

/// The 16-byte view of the `size` bytes of `heap` at `offset`: the bytes themselves if they are
/// few, else a prefix and where to find them.
pub open spec fn view_bytes(heap: Seq<u8>, offset: int, size: int) -> Seq<u8> {
    if size <= MAX_INLINED {
        u32_le(size as u32) + heap.subrange(offset, offset + size) + Seq::new(
            (MAX_INLINED - size) as nat,
            |i: int| 0u8,
        )
    } else {
        u32_le(size as u32) + heap.subrange(offset, offset + 4) + u32_le(0) + u32_le(offset as u32)
    }
}

/// The end of the last of the values whose lengths are given.
pub open spec fn heap_offset(lengths: Seq<usize>) -> int
    decreases lengths.len(),
{
    if lengths.len() == 0 {
        0
    } else {
        heap_offset(lengths.drop_last()) + lengths.last()
    }
}

/// The views of the values that follow one another in `heap`, or the first error among them.
pub open spec fn heap_views(heap: Seq<u8>, lengths: Seq<usize>) -> Result<Seq<u8>, GuestError>
    decreases lengths.len(),
{
    if lengths.len() == 0 {
        Ok(Seq::empty())
    } else {
        match heap_views(heap, lengths.drop_last()) {
            Err(e) => Err(e),
            Ok(views) => {
                let offset = heap_offset(lengths.drop_last());
                let size = lengths.last();
                if offset + size > heap.len() {
                    Err(GuestError::of("string length exceeds the heap"))
                } else if size > u32::MAX {
                    Err(GuestError::of("string too long for a view"))
                } else if size > MAX_INLINED && offset > u32::MAX {
                    Err(GuestError::of("heap offset exceeds u32"))
                } else {
                    Ok(views + view_bytes(heap, offset, size as int))
                }
            },
        }
    }
}

/// An error among the first values is the error of all of them.
proof fn lemma_heap_views_prefix(heap: Seq<u8>, lengths: Seq<usize>, k: int)
    requires
        0 <= k <= lengths.len(),
    ensures
        heap_views(heap, lengths.take(k)) matches Err(e) ==> heap_views(heap, lengths) == Err::<
            Seq<u8>,
            _,
        >(e),
    decreases lengths.len() - k,
{
    if k < lengths.len() {
        assert(lengths.take(k + 1).drop_last() =~= lengths.take(k));
        lemma_heap_views_prefix(heap, lengths, k + 1);
    } else {
        assert(lengths.take(k) =~= lengths);
    }
}

impl DecodedVarBinView {
    /// Build a canonical view array from one concatenated heap plus per-element lengths.
    ///
    /// This is the shape decompressors naturally produce.
    pub fn from_heap(heap: Vec<u8>, lengths: &[usize], validity: Validity) -> (result: GuestResult<
        Self,
    >)
        ensures
            match result {
                Ok(array) => {
                    &&& array.len == lengths@.len()
                    &&& heap_views(heap@, lengths@) == Ok::<_, GuestError>(array.views@)
                    &&& owned_contents(array.data@) == seq![heap@]
                    &&& array.validity == validity
                },
                Err(e) => heap_views(heap@, lengths@) == Err::<Seq<u8>, _>(e),
            },
    {
        let mut views: Vec<u8> = Vec::new();
        let mut offset: usize = 0;
        let mut i: usize = 0;
        assert(lengths@.take(0) =~= Seq::empty());
        while i < lengths.len()
            invariant
                i <= lengths@.len(),
                offset <= heap@.len(),
                offset == heap_offset(lengths@.take(i as int)),
                heap_views(heap@, lengths@.take(i as int)) == Ok::<_, GuestError>(views@),
            decreases lengths@.len() - i,
        {
            let size: usize = lengths[i];
            proof {
                assert(lengths@.take(i + 1).drop_last() =~= lengths@.take(i as int));
                lemma_heap_views_prefix(heap@, lengths@, i + 1);
            }
            if size > heap.len() - offset {
                return Err(GuestError::new("string length exceeds the heap"));
            }
            if size > u32::MAX as usize {
                return Err(GuestError::new("string too long for a view"));
            }
            let ghost before = views@;
            push_u32(&mut views, size as u32);
            if size <= MAX_INLINED {
                // Inlined: [u32 size][12 bytes of value, zero padded]
                push_bytes(&mut views, slice_subrange(heap.as_slice(), offset, offset + size));
                let mut pad: usize = size;
                let ghost filled = views@;
                while pad < MAX_INLINED
                    invariant
                        size <= pad <= MAX_INLINED,
                        views@ == filled + Seq::new((pad - size) as nat, |j: int| 0u8),
                    decreases MAX_INLINED - pad,
                {
                    views.push(0);
                    pad = pad + 1;
                    assert(views@ =~= filled + Seq::new((pad - size) as nat, |j: int| 0u8));
                }
            } else {
                // Ref: [u32 size][4-byte prefix][u32 buffer_index][u32 offset]
                push_bytes(&mut views, slice_subrange(heap.as_slice(), offset, offset + 4));
                push_u32(&mut views, 0);
                if offset > u32::MAX as usize {
                    return Err(GuestError::new("heap offset exceeds u32"));
                }
                push_u32(&mut views, offset as u32);
            }
            assert(views@ =~= before + view_bytes(heap@, offset as int, size as int));
            offset = offset + size;
            i = i + 1;
        }
        assert(lengths@.take(i as int) =~= lengths@);
        let len: usize = lengths.len();
        let mut data: Vec<Vec<u8>> = Vec::new();
        let ghost bytes = heap@;
        data.push(heap);
        assert(owned_contents(data@) =~= seq![bytes]);
        Ok(DecodedVarBinView { len, views, data, validity })
    }
}

/// The value of element `i` of a view array, as a reader of the canonical layout finds it.
pub open spec fn view_value(views: Seq<u8>, data: Seq<Seq<u8>>, i: int) -> Seq<u8> {
    let at = VIEW_SIZE * i;
    let size = u32_at(views, at) as int;
    if size <= MAX_INLINED {
        views.subrange(at + 4, at + 4 + size)
    } else {
        let offset = u32_at(views, at + 12) as int;
        data[u32_at(views, at + 8) as int].subrange(offset, offset + size)
    }
}

/// Whether `k` is one of `n` rows.
pub open spec fn is_row(k: int, n: int) -> bool {
    0 <= k < n
}

impl Frame {
    /// Whether row `i` of this frame is row `j` of another one, in the same layout: both are null or
    /// neither is, and a reader of the layout finds the same value. The row of a list is its offset
    /// and size, in elements that are the same; that of a fixed-size list, its elements; that of
    /// the other nested shapes, the rows of the children.
    pub open spec fn same_row(self, i: int, other: Frame, j: int) -> bool
        decreases self,
    {
        &&& self.shape == other.shape
        &&& self.param == other.param
        &&& self.children.len() == other.children.len()
        &&& !derives_validity(self.shape) ==> self.validity.is_valid(i) == other.validity.is_valid(j)
        &&& if self.shape == shape::BOOL {
            bit_at(self.buffers[0], i) == bit_at(other.buffers[0], j)
        } else if self.shape == shape::PRIMITIVE {
            let width = PType::of_tag(self.param as int)->0.width() as int;
            self.buffers[0].subrange(i * width, (i + 1) * width) == other.buffers[0].subrange(
                j * width,
                (j + 1) * width,
            )
        } else if self.shape == shape::DECIMAL {
            let width = DecimalType::of_tag(self.param as int)->0.width() as int;
            self.buffers[0].subrange(i * width, (i + 1) * width) == other.buffers[0].subrange(
                j * width,
                (j + 1) * width,
            )
        } else if self.shape == shape::VAR_BIN_VIEW {
            view_value(self.buffers[0], self.buffers.skip(1), i) == view_value(
                other.buffers[0],
                other.buffers.skip(1),
                j,
            )
        } else if self.shape == shape::LIST {
            &&& self.children.len() == 3
            &&& self.children[0].same_row(i, other.children[0], j)
            &&& self.children[1].same_row(i, other.children[1], j)
            &&& forall|k: int| #[trigger]
                is_row(k, other.children[2].len as int) ==> self.children[2].same_row(
                    k,
                    other.children[2],
                    k,
                )
        } else if self.shape == shape::FIXED_SIZE_LIST {
            &&& self.children.len() == 1
            &&& forall|k: int| #[trigger]
                is_row(k, other.list_size()) ==> self.children[0].same_row(
                    i * other.list_size() + k,
                    other.children[0],
                    j * other.list_size() + k,
                )
        } else {
            forall|c: int|
                0 <= c < self.children.len() ==> (#[trigger] self.children[c]).same_row(
                    i,
                    other.children[c],
                    j,
                )
        }
    }

    /// Every row of an owned copy is the row it was copied from.
    pub proof fn law_owned_rows(self, i: int)
        requires
            self.legible(),
        ensures
            self.owned().same_row(i, self, i),
        decreases self,
    {
        let owned = self.owned();
        if self.shape == shape::LIST {
            assert(self.interpret()->Ok_0.children == self.children.take(3));
            self.children[0].law_owned_rows(i);
            self.children[1].law_owned_rows(i);
            assert forall|k: int| #[trigger] is_row(k, self.children[2].len as int) implies
                owned.children[2].same_row(k, self.children[2], k) by {
                self.children[2].law_owned_rows(k);
            }
        } else if self.shape == shape::FIXED_SIZE_LIST {
            assert(self.interpret()->Ok_0.children == self.children.take(1));
            assert forall|k: int| #[trigger] is_row(k, self.list_size()) implies
                owned.children[0].same_row(
                i * self.list_size() + k,
                self.children[0],
                i * self.list_size() + k,
            ) by {
                self.children[0].law_owned_rows(i * self.list_size() + k);
            }
        } else {
            assert forall|c: int| 0 <= c < self.children.len() implies (
            #[trigger] owned.children[c]).same_row(i, self.children[c], i) by {
                self.children[c].law_owned_rows(i);
            }
        }
    }

    /// Row `i` of a gather is the row that index `i` names, whatever the layout and the indices. A
    /// gather is refused where an index names no row, and where a position in the elements of a
    /// fixed-size list does not fit an index.
    pub proof fn law_take_rows(self, indices: Seq<u32>, i: int)
        requires
            self.legible(),
            self.covers(indices),
        ensures
            match self.take(indices) {
                Ok(taken) => {
                    &&& in_bounds(indices, self.len as int)
                    &&& taken.len == indices.len()
                    &&& 0 <= i < indices.len() ==> taken.same_row(i, self, indices[i] as int)
                },
                Err(_) => true,
            },
        decreases self, 1nat,
    {
        if self.take(indices) is Ok && 0 <= i < indices.len() {
            let taken = self.take(indices)->Ok_0;
            let j = indices[i] as int;
            self.validity.law_take_is_valid(indices, i);
            if self.shape == shape::BOOL {
                crate::bits::lemma_pack_bit(
                    |k: int| bit_at(self.buffers[0], indices[k] as int),
                    indices.len() as int,
                    i,
                );
            } else if self.shape == shape::PRIMITIVE || self.shape == shape::DECIMAL {
                law_gather_element(self.buffers[0], self.element_width(), indices, i);
            } else if self.shape == shape::VAR_BIN_VIEW {
                let views = gather(self.buffers[0], 16, indices);
                law_gather_element(self.buffers[0], 16, indices, i);
                assert(taken.buffers[0] == views);
                assert(taken.buffers.skip(1) =~= self.buffers.skip(1));
                assert((indices[i] + 1) * 16 <= self.buffers[0].len());
                lemma_same_view(views, i, self.buffers[0], j, self.buffers.skip(1));
            } else if self.shape == shape::LIST {
                assert(self.interpret()->Ok_0.children == self.children.take(3));
                let pair = self.children.take(2);
                assert forall|c: int| 0 <= c < pair.len() implies (
                #[trigger] pair[c]).legible() by {
                    assert(pair[c] == self.children[c]);
                }
                lemma_take_all_rows(pair, indices, i);
                let both = take_all(pair, indices)->Ok_0;
                assert(both[0].same_row(i, pair[0], j));
                assert(both[1].same_row(i, pair[1], j));
                assert(self.children[2].legible());
                assert forall|k: int| #[trigger] is_row(k, self.children[2].len as int) implies
                    taken.children[2].same_row(k, self.children[2], k) by {
                    self.children[2].law_owned_rows(k);
                }
            } else if self.shape == shape::FIXED_SIZE_LIST {
                assert(self.interpret()->Ok_0.children == self.children.take(1));
                let size = self.list_size();
                let positions = element_positions(indices, size);
                let child = self.children[0];
                assert(child.legible());
                assert(size >= 0) by {
                    lemma_list_size(self);
                }
                assert forall|k: int| #[trigger] is_row(k, size) implies taken.children[0].same_row(
                    i * size + k,
                    child,
                    j * size + k,
                ) by {
                    lemma_element_position(indices, size, i, k);
                    child.law_take_rows(as_indices(positions), i * size + k);
                    assert(as_indices(positions)[i * size + k] == j * size + k);
                }
            } else {
                if self.shape != shape::NULL {
                    lemma_take_all_rows(self.children, indices, i);
                }
            }
        }
    }

    /// The lists of a gather have as many elements as those they were gathered from.
    pub proof fn law_take_list_size(self, indices: Seq<u32>)
        requires
            self.shape == shape::FIXED_SIZE_LIST,
            self.children.len() == 1,
            indices.len() > 0,
        ensures
            self.take(indices) matches Ok(taken) ==> taken.list_size() == self.list_size(),
    {
        if self.take(indices) is Ok {
            let size = self.list_size();
            let positions = element_positions(indices, size);
            lemma_list_size(self);
            lemma_element_count(indices, size);
            self.children[0].law_take_len(as_indices(positions));
            lemma_div_multiples_vanish(size, indices.len() as int);
            assert(indices.len() * size == size * indices.len()) by (nonlinear_arith);
        }
    }
}

/// A list has no negative number of elements.
proof fn lemma_list_size(frame: Frame)
    ensures
        frame.list_size() >= 0,
{
    if frame.len > 0 {
        lemma_div_pos_is_pos(frame.children[0].len as int, frame.len as int);
    }
}

/// Views of the same bytes have the same value.
proof fn lemma_same_view(a: Seq<u8>, i: int, b: Seq<u8>, j: int, data: Seq<Seq<u8>>)
    requires
        0 <= i,
        0 <= j,
        (i + 1) * 16 <= a.len(),
        (j + 1) * 16 <= b.len(),
        a.subrange(i * 16, (i + 1) * 16) == b.subrange(j * 16, (j + 1) * 16),
    ensures
        view_value(a, data, i) == view_value(b, data, j),
{
    let view = a.subrange(i * 16, (i + 1) * 16);
    reveal(u32_at);
    assert forall|k: int| 0 <= k < 16 implies #[trigger] a[16 * i + k] == view[k] by {}
    assert forall|k: int| 0 <= k < 16 implies #[trigger] b[16 * j + k] == view[k] by {}
    assert(u32_at(a, 16 * i) == u32_at(view, 0)) by {
        assert(a[16 * i + 0] == view[0] && a[16 * i + 1] == view[1] && a[16 * i + 2] == view[2]
            && a[16 * i + 3] == view[3]);
    }
    assert(u32_at(b, 16 * j) == u32_at(view, 0)) by {
        assert(b[16 * j + 0] == view[0] && b[16 * j + 1] == view[1] && b[16 * j + 2] == view[2]
            && b[16 * j + 3] == view[3]);
    }
    assert(u32_at(a, 16 * i + 8) == u32_at(view, 8)) by {
        assert(a[16 * i + 8] == view[8] && a[16 * i + 9] == view[9] && a[16 * i + 10] == view[10]
            && a[16 * i + 11] == view[11]);
    }
    assert(u32_at(b, 16 * j + 8) == u32_at(view, 8)) by {
        assert(b[16 * j + 8] == view[8] && b[16 * j + 9] == view[9] && b[16 * j + 10] == view[10]
            && b[16 * j + 11] == view[11]);
    }
    assert(u32_at(a, 16 * i + 12) == u32_at(view, 12)) by {
        assert(a[16 * i + 12] == view[12] && a[16 * i + 13] == view[13] && a[16 * i + 14]
            == view[14] && a[16 * i + 15] == view[15]);
    }
    assert(u32_at(b, 16 * j + 12) == u32_at(view, 12)) by {
        assert(b[16 * j + 12] == view[12] && b[16 * j + 13] == view[13] && b[16 * j + 14]
            == view[14] && b[16 * j + 15] == view[15]);
    }
    let size = u32_at(view, 0) as int;
    if size <= MAX_INLINED {
        assert(a.subrange(16 * i + 4, 16 * i + 4 + size) =~= view.subrange(4, 4 + size));
        assert(b.subrange(16 * j + 4, 16 * j + 4 + size) =~= view.subrange(4, 4 + size));
    }
}

/// As many positions as the lists have elements.
proof fn lemma_element_count(indices: Seq<u32>, size: int)
    requires
        0 <= size,
    ensures
        element_positions(indices, size).len() == indices.len() * size,
    decreases indices.len(),
{
    if indices.len() == 0 {
        assert(0 * size == 0) by (nonlinear_arith);
    } else {
        lemma_element_count(indices.drop_last(), size);
        let n = indices.len() - 1;
        assert((n + 1) * size == n * size + size) by (nonlinear_arith);
    }
}

/// The position of element `k` of list `i` is that of element `k` of the list that index `i` names.
proof fn lemma_element_position(indices: Seq<u32>, size: int, i: int, k: int)
    requires
        0 <= i < indices.len(),
        0 <= k < size,
    ensures
        0 <= i * size + k < element_positions(indices, size).len(),
        element_positions(indices, size)[i * size + k] == indices[i] * size + k,
    decreases indices.len(),
{
    let front = indices.drop_last();
    let n = front.len() as int;
    lemma_element_count(indices, size);
    lemma_element_count(front, size);
    assert(0 <= i * size) by (nonlinear_arith)
        requires
            0 <= i,
            0 <= size,
    ;
    if i < n {
        lemma_element_position(front, size, i, k);
        assert(front[i] == indices[i]);
        let before = element_positions(front, size);
        assert(element_positions(indices, size)[i * size + k] == before[i * size + k]);
    } else {
        assert(i == n);
        assert(indices.last() == indices[i]);
    }
    assert((i + 1) * size <= indices.len() * size) by (nonlinear_arith)
        requires
            i + 1 <= indices.len(),
            0 <= size,
    ;
    assert((i + 1) * size == i * size + size) by (nonlinear_arith);
}

/// Row `i` of every gather of row-aligned frames is the row that index `i` names.
proof fn lemma_take_all_rows(frames: Seq<Frame>, indices: Seq<u32>, i: int)
    requires
        forall|c: int| 0 <= c < frames.len() ==> (#[trigger] frames[c]).legible(),
        all_cover(frames, indices),
        take_all(frames, indices) is Ok,
        0 <= i < indices.len(),
    ensures
        take_all(frames, indices)->Ok_0.len() == frames.len(),
        forall|c: int|
            0 <= c < frames.len() ==> (#[trigger] take_all(frames, indices)->Ok_0[c]).same_row(
                i,
                frames[c],
                indices[i] as int,
            ),
    decreases frames, 0nat,
{
    if frames.len() > 0 {
        let front = frames.drop_last();
        let last = frames.last();
        assert forall|c: int| 0 <= c < front.len() implies (#[trigger] front[c]).legible() by {
            assert(front[c] == frames[c]);
        }
        lemma_take_all_rows(front, indices, i);
        assert(frames[frames.len() - 1].legible());
        last.law_take_rows(indices, i);
        assert forall|c: int| 0 <= c < frames.len() implies (#[trigger] take_all(
            frames,
            indices,
        )->Ok_0[c]).same_row(i, frames[c], indices[i] as int) by {
            if c < front.len() {
                assert(take_all(frames, indices)->Ok_0[c] == take_all(front, indices)->Ok_0[c]);
                assert(front[c] == frames[c]);
            }
        }
    }
}

impl Frame {
    /// A gather of an array that is as long as its length asks for succeeds exactly if every index
    /// names a row.
    pub proof fn law_take_succeeds(self, indices: Seq<u32>)
        requires
            self.exact(),
        ensures
            self.covers(indices),
            self.take(indices) is Ok <==> in_bounds(indices, self.len as int),
            self.take(indices) matches Err(e) ==> e == GuestError::of("take index out of bounds"),
        decreases self, 1nat,
    {
        if in_bounds(indices, self.len as int) {
            if self.shape == shape::NULL || self.shape == shape::BOOL {
                assert(all_cover(self.children, indices));
            } else if self.shape == shape::PRIMITIVE || self.shape == shape::DECIMAL || self.shape
                == shape::VAR_BIN_VIEW {
                let width = self.element_width();
                assert forall|i: int| 0 <= i < indices.len() implies ((#[trigger] indices[i]) + 1)
                    * width <= self.buffers[0].len() by {
                    assert((indices[i] + 1) * width <= self.len * width) by (nonlinear_arith)
                        requires
                            indices[i] + 1 <= self.len,
                            0 <= width,
                    ;
                }
            } else if self.shape == shape::LIST {
                assert(self.interpret()->Ok_0.children == self.children.take(3));
                let pair = self.children.take(2);
                assert forall|c: int| 0 <= c < pair.len() implies (#[trigger] pair[c]).exact()
                    && pair[c].len == self.len by {
                    assert(pair[c] == self.children[c]);
                }
                lemma_take_all_succeeds(pair, self.len, indices);
            } else if self.shape == shape::FIXED_SIZE_LIST {
                assert(self.interpret()->Ok_0.children == self.children.take(1));
                let size = self.list_size();
                let positions = element_positions(indices, size);
                let child = self.children[0];
                lemma_list_size(self);
                lemma_positions_inside(indices, size, self.len as int);
                assert(child.len <= u32::MAX) by {
                    reveal_with_fuel(Frame::exact, 2);
                }
                assert(positions_fit(positions));
                assert(in_bounds(as_indices(positions), child.len as int)) by {
                    assert forall|i: int| 0 <= i < as_indices(positions).len() implies (
                    #[trigger] as_indices(positions)[i]) < child.len by {
                        assert(0 <= positions[i] < self.len * size);
                    }
                }
                child.law_take_succeeds(as_indices(positions));
            } else {
                lemma_take_all_succeeds(self.children, self.len, indices);
            }
        }
    }
}

/// The positions of the elements of lists are among those of all the lists' elements.
proof fn lemma_positions_inside(indices: Seq<u32>, size: int, len: int)
    requires
        0 <= size,
        in_bounds(indices, len),
    ensures
        forall|p: int|
            0 <= p < element_positions(indices, size).len() ==> 0 <= #[trigger] element_positions(
                indices,
                size,
            )[p] < len * size,
    decreases indices.len(),
{
    if indices.len() > 0 {
        let front = indices.drop_last();
        assert(in_bounds(front, len)) by {
            assert forall|i: int| 0 <= i < front.len() implies (#[trigger] front[i]) < len by {
                assert(front[i] == indices[i]);
            }
        }
        lemma_positions_inside(front, size, len);
        let last = indices.last() as int;
        assert(indices[indices.len() - 1] < len);
        assert(last * size + size <= len * size) by (nonlinear_arith)
            requires
                last + 1 <= len,
                0 <= size,
        ;
        assert(0 <= last * size) by (nonlinear_arith)
            requires
                0 <= last,
                0 <= size,
        ;
        let before = element_positions(front, size);
        assert forall|p: int| 0 <= p < element_positions(indices, size).len() implies 0
            <= #[trigger] element_positions(indices, size)[p] < len * size by {
            if p < before.len() {
                assert(element_positions(indices, size)[p] == before[p]);
            }
        }
    }
}

/// Gathers of row-aligned frames of one length succeed where the indices name rows.
proof fn lemma_take_all_succeeds(frames: Seq<Frame>, n: nat, indices: Seq<u32>)
    requires
        forall|c: int|
            0 <= c < frames.len() ==> (#[trigger] frames[c]).exact() && frames[c].len == n,
        in_bounds(indices, n as int),
    ensures
        all_cover(frames, indices),
        take_all(frames, indices) is Ok,
    decreases frames, 0nat,
{
    if frames.len() > 0 {
        let front = frames.drop_last();
        assert forall|c: int| 0 <= c < front.len() implies (#[trigger] front[c]).exact()
            && front[c].len == n by {
            assert(front[c] == frames[c]);
        }
        lemma_take_all_succeeds(front, n, indices);
        assert(frames[frames.len() - 1].exact());
        frames.last().law_take_succeeds(indices);
    }
}

/// The view of value `i` stands at its place.
proof fn lemma_heap_view_at(heap: Seq<u8>, lengths: Seq<usize>, i: int)
    requires
        0 <= i < lengths.len(),
        heap_views(heap, lengths) is Ok,
    ensures
        heap_views(heap, lengths)->Ok_0.len() == VIEW_SIZE * lengths.len(),
        heap_views(heap, lengths)->Ok_0.subrange(VIEW_SIZE * i, VIEW_SIZE * (i + 1)) == view_bytes(
            heap,
            heap_offset(lengths.take(i)),
            lengths[i] as int,
        ),
        0 <= heap_offset(lengths.take(i)),
        heap_offset(lengths.take(i)) + lengths[i] <= heap.len(),
        lengths[i] <= u32::MAX,
        lengths[i] > MAX_INLINED ==> heap_offset(lengths.take(i)) <= u32::MAX,
    decreases lengths.len(),
{
    broadcast use group_le_len;

    let front = lengths.drop_last();
    let views = heap_views(heap, lengths)->Ok_0;
    let before = heap_views(heap, front)->Ok_0;
    lemma_heap_offset_nonnegative(front);
    if front.len() > 0 {
        lemma_heap_view_at(heap, front, if i < front.len() { i } else { 0 });
    }
    if i < front.len() {
        assert(front.take(i) =~= lengths.take(i));
        assert(views.subrange(VIEW_SIZE * i, VIEW_SIZE * (i + 1)) =~= before.subrange(
            VIEW_SIZE * i,
            VIEW_SIZE * (i + 1),
        ));
    } else {
        assert(front =~= lengths.take(i));
        assert(views.subrange(VIEW_SIZE * i, VIEW_SIZE * (i + 1)) =~= view_bytes(
            heap,
            heap_offset(front),
            lengths[i] as int,
        ));
    }
}

proof fn lemma_heap_offset_nonnegative(lengths: Seq<usize>)
    ensures
        0 <= heap_offset(lengths),
    decreases lengths.len(),
{
    if lengths.len() > 0 {
        lemma_heap_offset_nonnegative(lengths.drop_last());
    }
}

/// A view array built from a heap reads back as the heap, cut at the given lengths.
pub proof fn law_heap_value(heap: Seq<u8>, lengths: Seq<usize>, i: int)
    requires
        0 <= i < lengths.len(),
        heap_views(heap, lengths) is Ok,
    ensures
        ({
            let start = heap_offset(lengths.take(i));
            view_value(heap_views(heap, lengths)->Ok_0, seq![heap], i) == heap.subrange(
                start,
                start + lengths[i],
            )
        }),
{
    broadcast use group_le_len;

    let views = heap_views(heap, lengths)->Ok_0;
    let start = heap_offset(lengths.take(i));
    let size = lengths[i] as int;
    lemma_heap_view_at(heap, lengths, i);
    let at = VIEW_SIZE * i;
    let view = view_bytes(heap, start, size);
    lemma_piece(views, at, view, 0, 4);
    assert(view.subrange(0, 4) =~= u32_le(size as u32));
    lemma_u32_round_trip(views, at, size as u32);
    if size <= MAX_INLINED {
        lemma_piece(views, at, view, 4, size);
        assert(view.subrange(4, 4 + size) =~= heap.subrange(start, start + size));
    } else {
        lemma_piece(views, at, view, 8, 4);
        lemma_piece(views, at, view, 12, 4);
        assert(view.subrange(8, 12) =~= u32_le(0));
        assert(view.subrange(12, 16) =~= u32_le(start as u32));
        lemma_u32_round_trip(views, at + 8, 0);
        lemma_u32_round_trip(views, at + 12, start as u32);
    }
}

/// What a reader that only compares views finds in them: the size, and for a long value its first
/// four bytes, for a short one nothing behind it.
pub proof fn law_heap_view_layout(heap: Seq<u8>, lengths: Seq<usize>, i: int, k: int)
    requires
        0 <= i < lengths.len(),
        heap_views(heap, lengths) is Ok,
    ensures
        ({
            let views = heap_views(heap, lengths)->Ok_0;
            let value = view_value(views, seq![heap], i);
            let at = 16 * i;
            &&& views.len() == 16 * lengths.len()
            &&& u32_at(views, at) == lengths[i]
            &&& value.len() == lengths[i]
            &&& lengths[i] > 12 ==> views.subrange(at + 4, at + 8) == value.take(4)
            &&& lengths[i] <= 12 && lengths[i] <= k < 12 ==> views[at + 4 + k] == 0
        }),
{
    broadcast use group_le_len;

    let views = heap_views(heap, lengths)->Ok_0;
    let start = heap_offset(lengths.take(i));
    let size = lengths[i] as int;
    lemma_heap_view_at(heap, lengths, i);
    law_heap_value(heap, lengths, i);
    let at = 16 * i;
    let view = view_bytes(heap, start, size);
    let stored = views.subrange(at, at + 16);
    lemma_piece(views, at, view, 0, 4);
    assert(view.subrange(0, 4) =~= u32_le(size as u32));
    lemma_u32_round_trip(views, at, size as u32);
    if size > 12 {
        lemma_piece(views, at, view, 4, 4);
        assert(view.subrange(4, 8) =~= heap.subrange(start, start + 4));
        assert(heap.subrange(start, start + size).take(4) =~= heap.subrange(start, start + 4));
    } else if size <= k < 12 {
        assert(stored[4 + k] == view[4 + k]);
    }
}

/// Values follow one another in the heap, from its start on.
pub proof fn law_heap_offsets(lengths: Seq<usize>, i: int)
    requires
        0 <= i < lengths.len(),
    ensures
        heap_offset(lengths.take(0)) == 0,
        heap_offset(lengths.take(i + 1)) == heap_offset(lengths.take(i)) + lengths[i],
{
    assert(lengths.take(i + 1).drop_last() =~= lengths.take(i));
}

/// Views can be made exactly if the heap holds all values, every size is one of 32 bits, and so is
/// the place of every long value.
pub proof fn law_heap_views_fit(heap: Seq<u8>, lengths: Seq<usize>)
    ensures
        heap_views(heap, lengths) is Ok <==> {
            &&& lengths.len() > 0 ==> heap_offset(lengths) <= heap.len()
            &&& forall|i: int|
                0 <= i < lengths.len() ==> (#[trigger] lengths[i]) <= u32::MAX && (lengths[i] > 12
                    ==> heap_offset(lengths.take(i)) <= u32::MAX)
        },
    decreases lengths.len(),
{
    if lengths.len() > 0 {
        let front = lengths.drop_last();
        let last = lengths.len() - 1;
        law_heap_views_fit(heap, front);
        lemma_heap_offset_nonnegative(front);
        assert(lengths.take(last) =~= front);
        if heap_views(heap, lengths) is Ok {
            assert forall|i: int| 0 <= i < lengths.len() implies (#[trigger] lengths[i])
                <= u32::MAX && (lengths[i] > 12 ==> heap_offset(lengths.take(i)) <= u32::MAX) by {
                if i < last {
                    assert(front[i] == lengths[i]);
                    assert(front.take(i) =~= lengths.take(i));
                }
            }
        }
        if forall|i: int|
            0 <= i < lengths.len() ==> (#[trigger] lengths[i]) <= u32::MAX && (lengths[i] > 12
                ==> heap_offset(lengths.take(i)) <= u32::MAX) {
            assert forall|i: int| 0 <= i < front.len() implies (#[trigger] front[i]) <= u32::MAX
                && (front[i] > 12 ==> heap_offset(front.take(i)) <= u32::MAX) by {
                assert(front[i] == lengths[i]);
                assert(front.take(i) =~= lengths.take(i));
            }
            assert(lengths[last] <= u32::MAX);
        }
    }
}

} // verus!
