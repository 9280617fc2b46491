//! Views over the frames the host passes to `vx_children` and `vx_decode` (see [`crate::abi`]).

use vstd::prelude::*;
use vstd::slice::slice_subrange;

use crate::abi::child_descriptor;
use crate::abi::child_entry;
use crate::abi::children_frame;
use crate::abi::decode_frame;
use crate::abi::shape;
use crate::abi::validity;
use crate::abi::PType;
use crate::abi::FLAG_NULLABLE;
use crate::data::BoolView;
use crate::data::PrimitiveView;
use crate::data::ValidityView;
use crate::dtype::view_spec;
use crate::dtype::DTypeExpr;
use crate::dtype::DTypeView;
use crate::error::GuestError;
use crate::error::GuestResult;
use crate::frame::parse_validity;
use crate::frame::ValidityModel;
use crate::host::alloc_bytes;
use crate::host::alloc_bytes_spec;
use crate::le::group_le_len;
use crate::le::lemma_split;
use crate::le::lemma_u32_round_trip;
use crate::le::lemma_u64_round_trip;
use crate::le::push_bytes;
use crate::le::push_u32;
use crate::le::push_u64;
use crate::le::read_u32;
use crate::le::read_u64;
use crate::le::stands_at;
use crate::le::u32_at;
use crate::le::u32_le;
use crate::le::u64_at;
use crate::le::u64_le;
use crate::runtime::LinearMemory;
use crate::runtime::Memory;

verus! {

/// How the guest intends to use a serialized child.
#[derive(Clone, Copy, PartialEq, Eq, Structural)]
pub enum ChildMode {
    /// The guest reads this child's element bytes. The host canonicalizes it and copies it into
    /// guest memory, so its dtype must be one the guest can read.
    Values,
    /// The guest only names this child in its plan. The host resolves it lazily in its own
    /// encoding and never canonicalizes or copies it, so a referenced child may have any dtype.
    Reference,
}

impl ChildMode {
    /// The wire tag.
    pub open spec fn tag(self) -> u8 {
        match self {
            ChildMode::Values => child_descriptor::MODE_VALUES,
            ChildMode::Reference => child_descriptor::MODE_REFERENCE,
        }
    }
}

/// One serialized child's dtype, logical length, and access mode.
pub struct ChildSpec {
    /// The child's dtype, as a literal or a derivation of the parent's.
    pub dtype: DTypeExpr,
    /// The child's logical element count.
    pub len: u64,
    /// Whether the guest reads this child or merely references it.
    pub mode: ChildMode,
}

impl ChildSpec {
    /// A child the guest will read.
    pub fn values(dtype: DTypeExpr, len: u64) -> (spec_of_child: Self)
        ensures
            spec_of_child == (ChildSpec { dtype, len, mode: ChildMode::Values }),
    {
        ChildSpec { dtype, len, mode: ChildMode::Values }
    }

    /// A child the guest will only name in its plan.
    pub fn reference(dtype: DTypeExpr, len: u64) -> (spec_of_child: Self)
        ensures
            spec_of_child == (ChildSpec { dtype, len, mode: ChildMode::Reference }),
    {
        ChildSpec { dtype, len, mode: ChildMode::Reference }
    }

    /// The child's descriptor in the `vx_children` output.
    pub open spec fn descriptor(self) -> Seq<u8> {
        seq![self.mode.tag(), 0u8, 0u8, 0u8] + u32_le(self.dtype@.len() as u32) + u64_le(self.len)
            + self.dtype@
    }
}

/// Whether a frame's flags mark the parent dtype nullable: bit 0.
pub open spec fn flag_nullable(flags: u32) -> bool {
    flags % 2 == 1
}

fn is_nullable(flags: u32) -> (nullable: bool)
    ensures
        nullable == flag_nullable(flags),
{
    assert((flags & 1u32 != 0) == (flags % 2 == 1)) by (bit_vector);
    flags & FLAG_NULLABLE != 0
}

/// The header the host passes to `vx_children`: the node's length, nullability, serialized child
/// count, and encoding metadata.
pub struct NodeHeader<'a> {
    /// The node's logical element count.
    pub len: usize,
    /// Whether the node's dtype is nullable.
    pub nullable: bool,
    /// The number of serialized children present on the node.
    pub n_children: usize,
    /// The encoding's metadata bytes (parse with [`crate::proto`]).
    pub metadata: &'a [u8],
    /// The node's encoded dtype.
    pub dtype: &'a [u8],
}

/// Where the metadata of a `vx_children` frame starts.
pub open spec fn header_metadata_start(input: Seq<u8>) -> int {
    children_frame::HEADER + u32_at(input, children_frame::DTYPE_LEN as int)
}

/// Where a `vx_children` frame ends.
pub open spec fn header_end(input: Seq<u8>) -> int {
    header_metadata_start(input) + u32_at(input, children_frame::METADATA_LEN as int)
}

/// Whether a `vx_children` frame is complete.
pub open spec fn header_is_valid(input: Seq<u8>) -> bool {
    children_frame::HEADER <= input.len() && header_end(input) <= input.len()
}

/// Whether `header` is what a complete `vx_children` frame says.
pub open spec fn header_is(header: NodeHeader<'_>, input: Seq<u8>) -> bool {
    &&& header.len == u64_at(input, children_frame::PARENT_LEN as int) as usize
    &&& header.nullable == flag_nullable(u32_at(input, children_frame::FLAGS as int))
    &&& header.n_children == u32_at(input, children_frame::N_CHILDREN as int)
    &&& header.metadata@ == input.subrange(header_metadata_start(input), header_end(input))
    &&& header.dtype@ == input.subrange(
        children_frame::HEADER as int,
        header_metadata_start(input),
    )
}

impl<'a> NodeHeader<'a> {
    /// The node's dtype, in full.
    pub fn dtype(&self) -> (result: GuestResult<DTypeView<'a>>)
        ensures
            match result {
                Ok(view) => view_spec(self.dtype@) == Ok::<_, GuestError>(view@),
                Err(e) => view_spec(self.dtype@) == Err::<Seq<u8>, _>(e),
            },
    {
        DTypeView::new(self.dtype)
    }

    /// Parse a `vx_children` input frame.
    pub fn parse(input: &'a [u8]) -> (result: GuestResult<Self>)
        ensures
            match result {
                Ok(header) => header_is_valid(input@) && header_is(header, input@),
                Err(e) => !header_is_valid(input@) && e == if input@.len()
                    < children_frame::HEADER {
                    GuestError::of("children frame too short")
                } else {
                    GuestError::of("children frame out of bounds")
                },
            },
    {
        if input.len() < children_frame::HEADER {
            return Err(GuestError::new("children frame too short"));
        }
        let len: u64 = read_u64(input, children_frame::PARENT_LEN);
        let flags: u32 = read_u32(input, children_frame::FLAGS);
        let n_children: u32 = read_u32(input, children_frame::N_CHILDREN);
        let dtype_len: u32 = read_u32(input, children_frame::DTYPE_LEN);
        let metadata_len: u32 = read_u32(input, children_frame::METADATA_LEN);
        let metadata_start: u64 = children_frame::HEADER as u64 + dtype_len as u64;
        let end: u64 = metadata_start + metadata_len as u64;
        if (input.len() as u64) < end {
            return Err(GuestError::new("children frame out of bounds"));
        }
        Ok(
            NodeHeader {
                len: len as usize,
                nullable: is_nullable(flags),
                n_children: n_children as usize,
                metadata: slice_subrange(input, metadata_start as usize, end as usize),
                dtype: slice_subrange(input, children_frame::HEADER, metadata_start as usize),
            },
        )
    }
}

/// The descriptors of `specs`, one after the other.
pub open spec fn descriptors(specs: Seq<ChildSpec>) -> Seq<u8>
    decreases specs.len(),
{
    if specs.len() == 0 {
        Seq::empty()
    } else {
        descriptors(specs.drop_last()) + specs.last().descriptor()
    }
}

/// The `vx_children` output: the number of children and their descriptors.
pub open spec fn child_specs_bytes(specs: Seq<ChildSpec>) -> Seq<u8> {
    u32_le(specs.len() as u32) + descriptors(specs)
}

/// Serialize child specs into the `vx_children` output and return its pointer. `None` when the
/// memory is exhausted.
pub fn write_child_specs(memory: &mut LinearMemory, specs: &[ChildSpec]) -> (ptr: Option<i32>)
    requires
        old(memory)@.wf(),
    ensures
        final(memory)@.wf(),
        match alloc_bytes_spec(old(memory)@, child_specs_bytes(specs@)) {
            Some((address, after)) => ptr == Some(address as i32) && final(memory)@ == after,
            None => ptr is None && final(memory)@ == old(memory)@,
        },
{
    broadcast use group_le_len;

    let mut out: Vec<u8> = Vec::new();
    push_u32(&mut out, specs.len() as u32);
    let mut i: usize = 0;
    assert(specs@.take(0) =~= Seq::empty());
    assert(out@ =~= u32_le(specs@.len() as u32) + descriptors(specs@.take(0)));
    while i < specs.len()
        invariant
            i <= specs@.len(),
            out@ == u32_le(specs@.len() as u32) + descriptors(specs@.take(i as int)),
        decreases specs@.len() - i,
    {
        let one = &specs[i];
        let ghost before = out@;
        let mode: u8 = match one.mode {
            ChildMode::Values => child_descriptor::MODE_VALUES,
            ChildMode::Reference => child_descriptor::MODE_REFERENCE,
        };
        let dtype: &[u8] = one.dtype.as_bytes();
        out.push(mode);
        out.push(0);
        out.push(0);
        out.push(0);
        push_u32(&mut out, dtype.len() as u32);
        push_u64(&mut out, one.len);
        push_bytes(&mut out, dtype);
        assert(out@ =~= before + specs@[i as int].descriptor());
        assert(specs@.take(i + 1).drop_last() =~= specs@.take(i as int));
        i = i + 1;
        assert(out@ =~= u32_le(specs@.len() as u32) + descriptors(specs@.take(i as int)));
    }
    assert(specs@.take(i as int) =~= specs@);
    match alloc_bytes(memory, out.as_slice()) {
        Some(address) => Some(address as i32),
        None => None,
    }
}

/// Where the descriptor of child `i` starts.
pub open spec fn descriptor_offset(specs: Seq<ChildSpec>, i: int) -> int {
    4 + descriptors(specs.take(i)).len() as int
}

/// The host finds in the output the number of children and, at each one's place, its mode, its
/// length and its dtype, and the next one right after it.
pub proof fn law_child_specs_read(specs: Seq<ChildSpec>, i: int)
    requires
        0 <= i < specs.len(),
        specs.len() <= u32::MAX,
        specs[i].dtype@.len() <= u32::MAX,
    ensures
        ({
            let bytes = child_specs_bytes(specs);
            let at = descriptor_offset(specs, i);
            let dtype_len = specs[i].dtype@.len();
            &&& u32_at(bytes, 0) == specs.len()
            &&& bytes[at + child_descriptor::MODE] == specs[i].mode.tag()
            &&& u32_at(bytes, at + child_descriptor::DTYPE_LEN) == dtype_len
            &&& u64_at(bytes, at + child_descriptor::LEN) == specs[i].len
            &&& stands_at(bytes, at + child_descriptor::HEADER, specs[i].dtype@)
            &&& descriptor_offset(specs, i + 1) == at + child_descriptor::HEADER + dtype_len
        }),
{
    broadcast use group_le_len;

    let bytes = child_specs_bytes(specs);
    let at = descriptor_offset(specs, i);
    assert(bytes.subrange(0, bytes.len() as int) =~= bytes);
    lemma_split(bytes, 0, u32_le(specs.len() as u32), descriptors(specs));
    lemma_u32_round_trip(bytes, 0, specs.len() as u32);
    lemma_descriptors_prefix(specs, bytes, 4, i + 1);
    assert(specs.take(i + 1).drop_last() =~= specs.take(i));
    assert(specs.take(i + 1).last() == specs[i]);
    lemma_split(bytes, 4, descriptors(specs.take(i)), specs[i].descriptor());
    let tags = seq![specs[i].mode.tag(), 0u8, 0u8, 0u8];
    let len = u32_le(specs[i].dtype@.len() as u32);
    lemma_split(bytes, at, tags + len + u64_le(specs[i].len), specs[i].dtype@);
    lemma_split(bytes, at, tags + len, u64_le(specs[i].len));
    lemma_split(bytes, at, tags, len);
    assert(bytes[at] == bytes.subrange(at, at + 4)[0]);
    lemma_u32_round_trip(bytes, at + 4, specs[i].dtype@.len() as u32);
    lemma_u64_round_trip(bytes, at + 8, specs[i].len);
}

/// The first descriptors stand where all of them do.
proof fn lemma_descriptors_prefix(specs: Seq<ChildSpec>, bytes: Seq<u8>, start: int, k: int)
    requires
        0 <= k <= specs.len(),
        stands_at(bytes, start, descriptors(specs)),
    ensures
        stands_at(bytes, start, descriptors(specs.take(k))),
    decreases specs.len() - k,
{
    if k < specs.len() {
        lemma_descriptors_prefix(specs, bytes, start, k + 1);
        assert(specs.take(k + 1).drop_last() =~= specs.take(k));
        lemma_split(
            bytes,
            start,
            descriptors(specs.take(k)),
            specs.take(k + 1).last().descriptor(),
        );
    } else {
        assert(specs.take(k) =~= specs);
    }
}

/// A host-supplied `Values` child, as a typed view.
pub enum ChildView<'a> {
    /// A primitive child.
    Primitive(PrimitiveView<'a>),
    /// A boolean child (e.g. a validity bitmap).
    Bool(BoolView<'a>),
}

/// The content of a `Values` child.
#[verifier::ext_equal]
pub struct ChildModel {
    /// The element type; `None` for booleans.
    pub ptype: Option<PType>,
    /// Logical element count.
    pub len: nat,
    /// The values: little-endian elements, or a bitmap.
    pub values: Seq<u8>,
    /// Element validity.
    pub validity: ValidityModel,
}

impl<'a> View for ChildView<'a> {
    type V = ChildModel;

    open spec fn view(&self) -> ChildModel {
        match self {
            ChildView::Primitive(p) => ChildModel {
                ptype: Some(p.ptype),
                len: p.len as nat,
                values: p.values@,
                validity: p.validity@,
            },
            ChildView::Bool(b) => ChildModel {
                ptype: None,
                len: b.len as nat,
                values: b.bits@,
                validity: b.validity@,
            },
        }
    }
}

/// The child that the [`child_entry`] at `at` describes.
pub open spec fn child_spec(memory: Memory, input: Seq<u8>, at: int) -> Result<
    ChildModel,
    GuestError,
> {
    let shape_tag = input[at + child_entry::SHAPE];
    let ptype = PType::of_tag(input[at + child_entry::PTYPE] as int);
    let len = u32_at(input, at + child_entry::LEN);
    let values_ptr = u32_at(input, at + child_entry::VALUES_PTR) as int;
    let values_len = u32_at(input, at + child_entry::VALUES_LEN) as int;
    let validity_ptr = u32_at(input, at + child_entry::VALIDITY_PTR);
    match parse_validity(memory, input[at + child_entry::VALIDITY], validity_ptr, len as int) {
        Err(e) => Err(e),
        Ok(validity) => if !memory.holds(values_ptr, values_len) {
            Err(GuestError::of("buffer outside guest memory"))
        } else if shape_tag == shape::BOOL {
            Ok(
                ChildModel {
                    ptype: None,
                    len: len as nat,
                    values: memory.load(values_ptr, values_len),
                    validity,
                },
            )
        } else if shape_tag == shape::PRIMITIVE {
            if ptype is None {
                Err(GuestError::of("bad ptype"))
            } else {
                Ok(
                    ChildModel {
                        ptype,
                        len: len as nat,
                        values: memory.load(values_ptr, values_len),
                        validity,
                    },
                )
            }
        } else {
            Err(GuestError::of("child is neither primitive nor boolean"))
        },
    }
}

/// A view of the node the host asks the kernel to decode: the real serialized parts, namely
/// metadata, raw buffers, and host-decoded children.
pub struct NodeView<'a> {
    /// The node's logical element count.
    pub len: usize,
    /// Whether the node's dtype is nullable.
    pub nullable: bool,
    /// The encoding's metadata bytes.
    pub metadata: &'a [u8],
    /// The node's encoded dtype.
    pub dtype: &'a [u8],
    /// The frame.
    pub input: &'a [u8],
    /// Where the buffer table starts.
    pub buffers_table: usize,
    /// The number of raw serialized buffers.
    pub n_buffers: usize,
    /// Where the child table starts.
    pub children_table: usize,
    /// The number of host-decoded children.
    pub n_children: usize,
}

/// Where the metadata of a `vx_decode` frame starts.
pub open spec fn decode_metadata_start(input: Seq<u8>) -> int {
    decode_frame::HEADER + u32_at(input, decode_frame::DTYPE_LEN as int)
}

/// Where the buffer table of a `vx_decode` frame starts.
pub open spec fn decode_buffers_start(input: Seq<u8>) -> int {
    decode_metadata_start(input) + u32_at(input, decode_frame::METADATA_LEN as int)
}

/// Where the child table of a `vx_decode` frame starts.
pub open spec fn decode_children_start(input: Seq<u8>) -> int {
    decode_buffers_start(input) + 8 * u32_at(input, decode_frame::N_BUFFERS as int)
}

/// Where a `vx_decode` frame ends.
pub open spec fn decode_end(input: Seq<u8>) -> int {
    decode_children_start(input) + child_entry::SIZE * u32_at(
        input,
        decode_frame::N_CHILDREN as int,
    )
}

/// Whether a `vx_decode` frame is complete.
pub open spec fn node_is_valid(input: Seq<u8>) -> bool {
    decode_frame::HEADER <= input.len() && decode_end(input) <= input.len()
}

/// Whether `node` is what a complete `vx_decode` frame says.
pub open spec fn node_is(node: NodeView<'_>, input: Seq<u8>) -> bool {
    &&& node.wf()
    &&& node.input@ == input
    &&& node.len == u64_at(input, decode_frame::PARENT_LEN as int) as usize
    &&& node.nullable == flag_nullable(u32_at(input, decode_frame::FLAGS as int))
    &&& node.n_buffers == u32_at(input, decode_frame::N_BUFFERS as int)
    &&& node.n_children == u32_at(input, decode_frame::N_CHILDREN as int)
    &&& node.buffers_table == decode_buffers_start(input)
    &&& node.children_table == decode_children_start(input)
    &&& node.metadata@ == input.subrange(
        decode_metadata_start(input),
        decode_buffers_start(input),
    )
    &&& node.dtype@ == input.subrange(decode_frame::HEADER as int, decode_metadata_start(input))
}

impl<'a> NodeView<'a> {
    /// The tables lie inside the frame.
    pub open spec fn wf(self) -> bool {
        &&& self.buffers_table + 8 * self.n_buffers <= self.children_table
        &&& self.children_table + child_entry::SIZE * self.n_children <= self.input@.len()
    }

    /// Parse a `vx_decode` input frame.
    pub fn parse(input: &'a [u8]) -> (result: GuestResult<Self>)
        ensures
            match result {
                Ok(node) => node_is_valid(input@) && node_is(node, input@),
                Err(e) => !node_is_valid(input@) && e == if input@.len() < decode_frame::HEADER {
                    GuestError::of("decode frame too short")
                } else {
                    GuestError::of("decode frame tables out of bounds")
                },
            },
    {
        if input.len() < decode_frame::HEADER {
            return Err(GuestError::new("decode frame too short"));
        }
        let len: u64 = read_u64(input, decode_frame::PARENT_LEN);
        let flags: u32 = read_u32(input, decode_frame::FLAGS);
        let dtype_len: u32 = read_u32(input, decode_frame::DTYPE_LEN);
        let metadata_len: u32 = read_u32(input, decode_frame::METADATA_LEN);
        let n_buffers: u32 = read_u32(input, decode_frame::N_BUFFERS);
        let n_children: u32 = read_u32(input, decode_frame::N_CHILDREN);

        let metadata_start: u64 = decode_frame::HEADER as u64 + dtype_len as u64;
        let buffers_table: u64 = metadata_start + metadata_len as u64;
        let children_table: u64 = buffers_table + n_buffers as u64 * 8;
        let end: u64 = children_table + n_children as u64 * child_entry::SIZE as u64;
        if (input.len() as u64) < end {
            return Err(GuestError::new("decode frame tables out of bounds"));
        }
        Ok(
            NodeView {
                len: len as usize,
                nullable: is_nullable(flags),
                metadata: slice_subrange(input, metadata_start as usize, buffers_table as usize),
                dtype: slice_subrange(input, decode_frame::HEADER, metadata_start as usize),
                input,
                buffers_table: buffers_table as usize,
                n_buffers: n_buffers as usize,
                children_table: children_table as usize,
                n_children: n_children as usize,
            },
        )
    }

    /// The node's dtype, in full.
    ///
    /// The real type, not a coarse kind tag: a kernel can walk a struct's fields, read a decimal's
    /// precision, or look through an extension type to its storage.
    pub fn dtype(&self) -> (result: GuestResult<DTypeView<'a>>)
        ensures
            match result {
                Ok(view) => view_spec(self.dtype@) == Ok::<_, GuestError>(view@),
                Err(e) => view_spec(self.dtype@) == Err::<Seq<u8>, _>(e),
            },
    {
        DTypeView::new(self.dtype)
    }

    /// The number of raw serialized buffers.
    pub fn nbuffers(&self) -> (n: usize)
        ensures
            n == self.n_buffers,
    {
        self.n_buffers
    }

    /// The `i`th raw serialized buffer, resident in guest memory.
    ///
    /// A table entry that points outside the memory is an error.
    pub fn buffer(&self, memory: &'a LinearMemory, i: usize) -> (result: GuestResult<&'a [u8]>)
        requires
            self.wf(),
        ensures
            ({
                let entry = self.buffers_table + 8 * i;
                let ptr = u32_at(self.input@, entry) as int;
                let len = u32_at(self.input@, entry + 4) as int;
                match result {
                    Ok(buffer) => i < self.n_buffers && memory@.holds(ptr, len) && buffer@
                        == memory@.load(ptr, len),
                    Err(e) => if i >= self.n_buffers {
                        e == GuestError::of("buffer index out of bounds")
                    } else {
                        !memory@.holds(ptr, len) && e == GuestError::of(
                            "buffer outside guest memory",
                        )
                    },
                }
            }),
    {
        if i >= self.n_buffers {
            return Err(GuestError::new("buffer index out of bounds"));
        }
        assert(self.input.len() <= usize::MAX);
        let entry: usize = self.buffers_table + i * 8;
        let ptr: u32 = read_u32(self.input, entry);
        let len: usize = read_u32(self.input, entry + 4) as usize;
        match memory.load(ptr, len) {
            Some(buffer) => Ok(buffer),
            None => Err(GuestError::new("buffer outside guest memory")),
        }
    }

    /// The number of host-decoded children.
    pub fn nchildren(&self) -> (n: usize)
        ensures
            n == self.n_children,
    {
        self.n_children
    }

    /// The `i`th host-supplied `Values` child, as a typed view.
    pub fn child(&self, memory: &'a LinearMemory, i: usize) -> (result: GuestResult<ChildView<'a>>)
        requires
            self.wf(),
        ensures
            ({
                let at = self.children_table + child_entry::SIZE * i;
                match result {
                    Ok(child) => i < self.n_children && child_spec(memory@, self.input@, at)
                        == Ok::<_, GuestError>(child@),
                    Err(e) => if i >= self.n_children {
                        e == GuestError::of("child index out of bounds")
                    } else {
                        child_spec(memory@, self.input@, at) == Err::<ChildModel, _>(e)
                    },
                }
            }),
    {
        if i >= self.n_children {
            return Err(GuestError::new("child index out of bounds"));
        }
        assert(self.input.len() <= usize::MAX);
        let start: usize = self.children_table + i * child_entry::SIZE;
        Self::read_child(memory, self.input, start)
    }

    /// Read the child entry at `at`.
    fn read_child(memory: &'a LinearMemory, input: &'a [u8], at: usize) -> (result: GuestResult<
        ChildView<'a>,
    >)
        requires
            at + child_entry::SIZE <= input@.len(),
        ensures
            match result {
                Ok(child) => child_spec(memory@, input@, at as int) == Ok::<_, GuestError>(child@),
                Err(e) => child_spec(memory@, input@, at as int) == Err::<ChildModel, _>(e),
            },
    {
        assert(input.len() <= usize::MAX);
        let shape_tag: u8 = input[at + child_entry::SHAPE];
        let ptype_tag: u8 = input[at + child_entry::PTYPE];
        let validity_tag: u8 = input[at + child_entry::VALIDITY];
        let len: usize = read_u32(input, at + child_entry::LEN) as usize;
        let values_ptr: u32 = read_u32(input, at + child_entry::VALUES_PTR);
        let values_len: usize = read_u32(input, at + child_entry::VALUES_LEN) as usize;
        let validity_ptr: u32 = read_u32(input, at + child_entry::VALIDITY_PTR);
        let validity = match ValidityView::parse(memory, validity_tag, validity_ptr, len) {
            Ok(validity) => validity,
            Err(e) => {
                return Err(e);
            },
        };
        let values: &'a [u8] = match memory.load(values_ptr, values_len) {
            Some(values) => values,
            None => {
                return Err(GuestError::new("buffer outside guest memory"));
            },
        };
        if shape_tag == shape::BOOL {
            Ok(ChildView::Bool(BoolView { len, bits: values, validity }))
        } else if shape_tag == shape::PRIMITIVE {
            match PType::from_discriminant(ptype_tag as u64) {
                Some(ptype) => Ok(
                    ChildView::Primitive(PrimitiveView { ptype, len, values, validity }),
                ),
                None => Err(GuestError::new("bad ptype")),
            }
        } else {
            Err(GuestError::new("child is neither primitive nor boolean"))
        }
    }
}

/// A `vx_children` frame, part by part.
pub open spec fn children_frame_bytes(
    len: u64,
    flags: u32,
    n_children: u32,
    dtype: Seq<u8>,
    metadata: Seq<u8>,
) -> Seq<u8> {
    u64_le(len) + u32_le(flags) + u32_le(n_children) + u32_le(dtype.len() as u32) + u32_le(
        metadata.len() as u32,
    ) + dtype + metadata
}

/// A `vx_children` frame is read as what it was written with.
pub proof fn law_header_round_trip(
    header: NodeHeader<'_>,
    len: u64,
    flags: u32,
    n_children: u32,
    dtype: Seq<u8>,
    metadata: Seq<u8>,
)
    requires
        dtype.len() <= u32::MAX,
        metadata.len() <= u32::MAX,
    ensures
        header_is_valid(children_frame_bytes(len, flags, n_children, dtype, metadata)),
        header_is(header, children_frame_bytes(len, flags, n_children, dtype, metadata)) ==> {
            &&& header.len == len as usize
            &&& header.nullable <==> flags & 1 != 0
            &&& header.n_children == n_children
            &&& header.dtype@ == dtype
            &&& header.metadata@ == metadata
        },
{
    broadcast use group_le_len;

    let frame = children_frame_bytes(len, flags, n_children, dtype, metadata);
    assert(frame.subrange(0, 8) =~= u64_le(len));
    assert(frame.subrange(8, 12) =~= u32_le(flags));
    assert(frame.subrange(12, 16) =~= u32_le(n_children));
    assert(frame.subrange(16, 20) =~= u32_le(dtype.len() as u32));
    assert(frame.subrange(20, 24) =~= u32_le(metadata.len() as u32));
    lemma_u64_round_trip(frame, 0, len);
    lemma_u32_round_trip(frame, 8, flags);
    lemma_u32_round_trip(frame, 12, n_children);
    lemma_u32_round_trip(frame, 16, dtype.len() as u32);
    lemma_u32_round_trip(frame, 20, metadata.len() as u32);
    let start = 24 + dtype.len() as int;
    assert(frame.subrange(24, start) =~= dtype);
    assert(frame.subrange(start, start + metadata.len()) =~= metadata);
    assert((flags & 1u32 != 0) == (flags % 2 == 1)) by (bit_vector);
}

/// The addresses and lengths of buffers, one after the other.
pub open spec fn buffer_table(buffers: Seq<(u32, u32)>) -> Seq<u8>
    decreases buffers.len(),
{
    if buffers.len() == 0 {
        Seq::empty()
    } else {
        buffer_table(buffers.drop_last()) + u32_le(buffers.last().0) + u32_le(buffers.last().1)
    }
}

/// A child in a `vx_decode` frame, by its tags and where its values and its bitmap are.
pub struct ChildEntry {
    /// The shape.
    pub shape: u8,
    /// The primitive type.
    pub ptype: u8,
    /// The form of the validity.
    pub validity: u8,
    /// Logical element count.
    pub len: u32,
    /// The address of the values.
    pub values_ptr: u32,
    /// The length of the values.
    pub values_len: u32,
    /// The address of the bitmap.
    pub validity_ptr: u32,
}

impl ChildEntry {
    /// The encoded entry.
    pub open spec fn encode(self) -> Seq<u8> {
        seq![self.shape, self.ptype, self.validity, 0u8] + u32_le(self.len) + u32_le(
            self.values_ptr,
        ) + u32_le(self.values_len) + u32_le(self.validity_ptr) + u32_le(0)
    }
}

/// The encoded entries, one after the other.
pub open spec fn entry_table(entries: Seq<ChildEntry>) -> Seq<u8>
    decreases entries.len(),
{
    if entries.len() == 0 {
        Seq::empty()
    } else {
        entry_table(entries.drop_last()) + entries.last().encode()
    }
}

/// A `vx_decode` frame, part by part.
pub open spec fn decode_frame_bytes(
    len: u64,
    flags: u32,
    dtype: Seq<u8>,
    metadata: Seq<u8>,
    buffers: Seq<(u32, u32)>,
    entries: Seq<ChildEntry>,
) -> Seq<u8> {
    u64_le(len) + u32_le(flags) + u32_le(dtype.len() as u32) + u32_le(metadata.len() as u32)
        + u32_le(buffers.len() as u32) + u32_le(entries.len() as u32) + dtype + metadata
        + buffer_table(buffers) + entry_table(entries)
}

proof fn lemma_table_lens(buffers: Seq<(u32, u32)>, entries: Seq<ChildEntry>)
    ensures
        buffer_table(buffers).len() == 8 * buffers.len(),
        entry_table(entries).len() == 24 * entries.len(),
    decreases buffers.len(), entries.len(),
{
    broadcast use group_le_len;

    if buffers.len() > 0 {
        lemma_table_lens(buffers.drop_last(), entries);
    } else if entries.len() > 0 {
        lemma_table_lens(buffers, entries.drop_last());
    }
}

proof fn lemma_buffer_at(buffers: Seq<(u32, u32)>, bytes: Seq<u8>, start: int, i: int)
    requires
        0 <= i < buffers.len(),
        stands_at(bytes, start, buffer_table(buffers)),
    ensures
        u32_at(bytes, start + 8 * i) == buffers[i].0,
        u32_at(bytes, start + 8 * i + 4) == buffers[i].1,
    decreases buffers.len(),
{
    broadcast use group_le_len;

    let front = buffers.drop_last();
    let last = buffers.last();
    lemma_table_lens(front, seq![]);
    lemma_split(bytes, start, buffer_table(front) + u32_le(last.0), u32_le(last.1));
    lemma_split(bytes, start, buffer_table(front), u32_le(last.0));
    if i < front.len() {
        lemma_buffer_at(front, bytes, start, i);
        assert(front[i] == buffers[i]);
    } else {
        lemma_u32_round_trip(bytes, start + 8 * i, last.0);
        lemma_u32_round_trip(bytes, start + 8 * i + 4, last.1);
    }
}

proof fn lemma_entry_at(entries: Seq<ChildEntry>, bytes: Seq<u8>, start: int, i: int)
    requires
        0 <= i < entries.len(),
        stands_at(bytes, start, entry_table(entries)),
    ensures
        stands_at(bytes, start + 24 * i, entries[i].encode()),
    decreases entries.len(),
{
    broadcast use group_le_len;

    let front = entries.drop_last();
    lemma_table_lens(seq![], front);
    lemma_split(bytes, start, entry_table(front), entries.last().encode());
    if i < front.len() {
        lemma_entry_at(front, bytes, start, i);
        assert(front[i] == entries[i]);
    }
}

/// A `vx_decode` frame is read as what it was written with: buffer `i` by its address and length,
/// and child `j` by its entry.
pub proof fn law_node_round_trip(
    node: NodeView<'_>,
    len: u64,
    flags: u32,
    dtype: Seq<u8>,
    metadata: Seq<u8>,
    buffers: Seq<(u32, u32)>,
    entries: Seq<ChildEntry>,
    i: int,
    j: int,
)
    requires
        dtype.len() <= u32::MAX,
        metadata.len() <= u32::MAX,
        buffers.len() <= u32::MAX,
        entries.len() <= u32::MAX,
    ensures
        node_is_valid(decode_frame_bytes(len, flags, dtype, metadata, buffers, entries)),
        node_is(node, decode_frame_bytes(len, flags, dtype, metadata, buffers, entries)) ==> {
            &&& node.len == len as usize
            &&& node.nullable <==> flags & 1 != 0
            &&& node.dtype@ == dtype
            &&& node.metadata@ == metadata
            &&& node.n_buffers == buffers.len()
            &&& node.n_children == entries.len()
            &&& 0 <= i < buffers.len() ==> u32_at(node.input@, node.buffers_table + 8 * i)
                == buffers[i].0 && u32_at(node.input@, node.buffers_table + 8 * i + 4)
                == buffers[i].1
            &&& 0 <= j < entries.len() ==> stands_at(
                node.input@,
                node.children_table + 24 * j,
                entries[j].encode(),
            )
        },
{
    broadcast use group_le_len;

    let frame = decode_frame_bytes(len, flags, dtype, metadata, buffers, entries);
    lemma_table_lens(buffers, entries);
    assert(frame.subrange(0, 8) =~= u64_le(len));
    assert(frame.subrange(8, 12) =~= u32_le(flags));
    assert(frame.subrange(12, 16) =~= u32_le(dtype.len() as u32));
    assert(frame.subrange(16, 20) =~= u32_le(metadata.len() as u32));
    assert(frame.subrange(20, 24) =~= u32_le(buffers.len() as u32));
    assert(frame.subrange(24, 28) =~= u32_le(entries.len() as u32));
    lemma_u64_round_trip(frame, 0, len);
    lemma_u32_round_trip(frame, 8, flags);
    lemma_u32_round_trip(frame, 12, dtype.len() as u32);
    lemma_u32_round_trip(frame, 16, metadata.len() as u32);
    lemma_u32_round_trip(frame, 20, buffers.len() as u32);
    lemma_u32_round_trip(frame, 24, entries.len() as u32);
    let at = 28 + dtype.len() as int;
    let table = at + metadata.len();
    let children = table + 8 * buffers.len();
    assert(frame.subrange(28, at) =~= dtype);
    assert(frame.subrange(at, table) =~= metadata);
    assert(frame.subrange(table, children) =~= buffer_table(buffers));
    assert(frame.subrange(children, frame.len() as int) =~= entry_table(entries));
    assert((flags & 1u32 != 0) == (flags % 2 == 1)) by (bit_vector);
    if 0 <= i < buffers.len() {
        lemma_buffer_at(buffers, frame, table, i);
    }
    if 0 <= j < entries.len() {
        lemma_entry_at(entries, frame, children, j);
    }
}

/// A child is read as what its entry says: its values and, where it has one, its bitmap, out of the
/// memory.
pub proof fn law_child_entry_read(
    memory: Memory,
    input: Seq<u8>,
    at: int,
    entry: ChildEntry,
    child: ChildModel,
)
    requires
        stands_at(input, at, entry.encode()),
        entry.len == child.len,
        entry.shape == (match child.ptype {
            Some(_) => shape::PRIMITIVE,
            None => shape::BOOL,
        }),
        child.ptype matches Some(ptype) ==> entry.ptype == ptype.tag(),
        entry.values_len == child.values.len(),
        stands_at(memory.bytes, entry.values_ptr as int, child.values),
        match child.validity {
            ValidityModel::NonNullable => entry.validity == 0,
            ValidityModel::AllValid => entry.validity == 1,
            ValidityModel::AllInvalid => entry.validity == 2,
            ValidityModel::Bitmap(bits) => {
                &&& entry.validity == 3
                &&& bits.len() == (child.len + 7) / 8
                &&& stands_at(memory.bytes, entry.validity_ptr as int, bits)
            },
        },
    ensures
        child_spec(memory, input, at) == Ok::<_, GuestError>(child),
{
    broadcast use group_le_len;

    let tags = seq![entry.shape, entry.ptype, entry.validity, 0u8];
    let stored = input.subrange(at, at + 24);
    assert(stored =~= entry.encode());
    assert(stored[0] == tags[0] && stored[1] == tags[1] && stored[2] == tags[2]);
    assert(input.subrange(at + 4, at + 8) =~= stored.subrange(4, 8));
    assert(input.subrange(at + 8, at + 12) =~= stored.subrange(8, 12));
    assert(input.subrange(at + 12, at + 16) =~= stored.subrange(12, 16));
    assert(input.subrange(at + 16, at + 20) =~= stored.subrange(16, 20));
    assert(stored.subrange(4, 8) =~= u32_le(entry.len));
    assert(stored.subrange(8, 12) =~= u32_le(entry.values_ptr));
    assert(stored.subrange(12, 16) =~= u32_le(entry.values_len));
    assert(stored.subrange(16, 20) =~= u32_le(entry.validity_ptr));
    lemma_u32_round_trip(input, at + 4, entry.len);
    lemma_u32_round_trip(input, at + 8, entry.values_ptr);
    lemma_u32_round_trip(input, at + 12, entry.values_len);
    lemma_u32_round_trip(input, at + 16, entry.validity_ptr);
    if let Some(ptype) = child.ptype {
        ptype.lemma_tag_round_trip();
    }
}

} // verus!
