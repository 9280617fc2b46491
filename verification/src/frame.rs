//! What an array frame says, and the laws of writing and parsing one.
//!
//! A frame is a tree: a shape with its parameter, a validity, a length, a table of buffers and
//! the frames of the children. Writing a tree allocates its bitmaps and buffers in linear memory
//! and lays out the table of their addresses; parsing follows the addresses back.

use vstd::prelude::*;

use crate::abi::array_frame;
use crate::abi::shape;
use crate::abi::validity;
use crate::abi::PType;
use crate::data::DecimalType;
use crate::error::GuestError;
use crate::host::alloc_bytes_spec;
use crate::host::lemma_alloc_bytes;
use crate::le::group_le_len;
use crate::le::lemma_piece;
use crate::le::lemma_u32_round_trip;
use crate::le::u32_at;
use crate::le::u32_le;
use crate::runtime::Memory;

verus! {

broadcast use group_le_len;

/// Maximum array nesting the guest will parse, matching the host's limit.
pub const MAX_DEPTH: usize = 32;

/// The content of a validity: no bitmap, or the bytes of one.
#[verifier::ext_equal]
pub enum ValidityModel {
    /// The dtype is not nullable.
    NonNullable,
    /// Nullable, all elements valid.
    AllValid,
    /// Nullable, all elements null.
    AllInvalid,
    /// An LSB-first bitmap, 1 = valid.
    Bitmap(Seq<u8>),
}

impl ValidityModel {
    /// The wire tag.
    pub open spec fn tag(self) -> u8 {
        match self {
            ValidityModel::NonNullable => validity::NON_NULLABLE,
            ValidityModel::AllValid => validity::ALL_VALID,
            ValidityModel::AllInvalid => validity::ALL_INVALID,
            ValidityModel::Bitmap(_) => validity::BITMAP,
        }
    }
}

/// The bytes of a bitmap over `len` elements.
pub open spec fn bitmap_len(len: int) -> int {
    (len + 7) / 8
}

/// The content of one array frame.
#[verifier::ext_equal]
pub struct Frame {
    /// The [`shape`] tag.
    pub shape: u8,
    /// The primitive or decimal storage type; 0 for other shapes.
    pub param: u8,
    /// Element validity.
    pub validity: ValidityModel,
    /// Logical element count.
    pub len: nat,
    /// The contents of the buffers.
    pub buffers: Seq<Seq<u8>>,
    /// The frames of the children.
    pub children: Seq<Frame>,
}

impl Frame {
    /// The frame restricted to what its shape reads: the first buffer of a fixed-width array, the
    /// children a nested shape names, and the parameter of the two shapes that have one. An error
    /// where the shape is unknown or something it needs is missing.
    pub open spec fn interpret(self) -> Result<Frame, GuestError> {
        let bare = Frame { param: 0, buffers: seq![], children: seq![], ..self };
        if self.shape == shape::NULL {
            Ok(bare)
        } else if self.shape == shape::BOOL {
            if self.buffers.len() < 1 {
                Err(GuestError::of("bool array missing its bitmap"))
            } else {
                Ok(Frame { buffers: seq![self.buffers[0]], ..bare })
            }
        } else if self.shape == shape::PRIMITIVE {
            if PType::of_tag(self.param as int) is None {
                Err(GuestError::of("bad ptype"))
            } else if self.buffers.len() < 1 {
                Err(GuestError::of("primitive array missing its values"))
            } else {
                Ok(Frame { param: self.param, buffers: seq![self.buffers[0]], ..bare })
            }
        } else if self.shape == shape::DECIMAL {
            if DecimalType::of_tag(self.param as int) is None {
                Err(GuestError::of("bad decimal storage type"))
            } else if self.buffers.len() < 1 {
                Err(GuestError::of("decimal array missing its values"))
            } else {
                Ok(Frame { param: self.param, buffers: seq![self.buffers[0]], ..bare })
            }
        } else if self.shape == shape::VAR_BIN_VIEW {
            if self.buffers.len() < 1 {
                Err(GuestError::of("view array missing its views"))
            } else {
                Ok(Frame { buffers: self.buffers, ..bare })
            }
        } else if self.shape == shape::LIST {
            if self.children.len() < 1 {
                Err(GuestError::of("list missing offsets"))
            } else if self.children.len() < 2 {
                Err(GuestError::of("list missing sizes"))
            } else if self.children.len() < 3 {
                Err(GuestError::of("list missing elements"))
            } else {
                Ok(Frame { children: self.children.take(3), ..bare })
            }
        } else if self.shape == shape::FIXED_SIZE_LIST {
            if self.children.len() < 1 {
                Err(GuestError::of("fixed-size list missing elements"))
            } else {
                Ok(Frame { children: self.children.take(1), ..bare })
            }
        } else if self.shape == shape::STRUCT {
            Ok(Frame { children: self.children, ..bare })
        } else if self.shape == shape::UNION {
            if self.children.len() < 1 {
                Err(GuestError::of("union missing type ids"))
            } else {
                Ok(Frame { children: self.children, ..bare })
            }
        } else if self.shape == shape::MAP {
            if self.children.len() < 1 {
                Err(GuestError::of("map missing entries"))
            } else {
                Ok(Frame { children: self.children.take(1), ..bare })
            }
        } else if self.shape == shape::EXTENSION {
            if self.children.len() < 1 {
                Err(GuestError::of("extension missing storage"))
            } else {
                Ok(Frame { children: self.children.take(1), ..bare })
            }
        } else {
            Err(GuestError::of("bad array shape tag"))
        }
    }

    /// Whether the tree, with its root at nesting `depth`, fits the wire format: nested no deeper
    /// than the parser goes, every count within 32 bits, and every bitmap of the length its array
    /// needs.
    pub open spec fn fits(self, depth: int) -> bool
        decreases self,
    {
        &&& depth <= MAX_DEPTH
        &&& self.len <= u32::MAX
        &&& self.buffers.len() <= u32::MAX
        &&& self.children.len() <= u32::MAX
        &&& forall|i: int|
            0 <= i < self.buffers.len() ==> (#[trigger] self.buffers[i]).len() <= u32::MAX
        &&& self.validity matches ValidityModel::Bitmap(bits) ==> bits.len() == bitmap_len(
            self.len as int,
        )
        &&& forall|i: int|
            0 <= i < self.children.len() ==> (#[trigger] self.children[i]).fits(depth + 1)
    }

    /// Whether every frame of the tree has what its shape reads and nothing else.
    pub open spec fn legible(self) -> bool
        decreases self,
    {
        &&& self.interpret() == Ok::<Frame, GuestError>(self)
        &&& forall|i: int| 0 <= i < self.children.len() ==> (#[trigger] self.children[i]).legible()
    }

    /// The fixed part of the encoded frame.
    pub open spec fn header(self, validity_ptr: u32) -> Seq<u8> {
        seq![self.shape, self.param, self.validity.tag(), 0u8] + u32_le(self.len as u32) + u32_le(
            validity_ptr,
        ) + u32_le(self.buffers.len() as u32)
    }
}

/// The bitmap pointer of a validity and the memory once the bitmap is in it; `None` for a trap.
pub open spec fn encode_validity(content: ValidityModel, memory: Memory) -> Option<(u32, Memory)> {
    match content {
        ValidityModel::Bitmap(bits) => alloc_bytes_spec(memory, bits),
        _ => Some((0u32, memory)),
    }
}

/// The table of `(pointer, length)` entries of `buffers`, placed in memory in order.
pub open spec fn encode_buffers(buffers: Seq<Seq<u8>>, memory: Memory) -> Option<
    (Seq<u8>, Memory),
>
    decreases buffers.len(),
{
    if buffers.len() == 0 {
        Some((Seq::empty(), memory))
    } else {
        match encode_buffers(buffers.drop_last(), memory) {
            None => None,
            Some((table, before)) => match alloc_bytes_spec(before, buffers.last()) {
                None => None,
                Some((ptr, after)) => Some(
                    (table + u32_le(ptr) + u32_le(buffers.last().len() as u32), after),
                ),
            },
        }
    }
}

/// The encoded frame of a tree, and the memory once its bitmap, its buffers and then those of its
/// children are in it; `None` when the memory is exhausted.
pub open spec fn encode(frame: Frame, memory: Memory) -> Option<(Seq<u8>, Memory)>
    decreases frame,
{
    match encode_validity(frame.validity, memory) {
        None => None,
        Some((ptr, with_validity)) => match encode_buffers(frame.buffers, with_validity) {
            None => None,
            Some((table, with_buffers)) => match encode_all(frame.children, with_buffers) {
                None => None,
                Some((children, after)) => Some(
                    (
                        frame.header(ptr) + table + u32_le(frame.children.len() as u32) + children,
                        after,
                    ),
                ),
            },
        },
    }
}

/// The encoded frames of `frames`, one after the other.
pub open spec fn encode_all(frames: Seq<Frame>, memory: Memory) -> Option<(Seq<u8>, Memory)>
    decreases frames,
{
    if frames.len() == 0 {
        Some((Seq::empty(), memory))
    } else {
        match encode_all(frames.drop_last(), memory) {
            None => None,
            Some((bytes, before)) => match encode(frames.last(), before) {
                None => None,
                Some((last, after)) => Some((bytes + last, after)),
            },
        }
    }
}

/// The address of a written tree and the memory holding it.
pub open spec fn written(frame: Frame, memory: Memory) -> Option<(u32, Memory)> {
    match encode(frame, memory) {
        None => None,
        Some((bytes, after)) => alloc_bytes_spec(after, bytes),
    }
}

/// The validity named by a tag and a bitmap pointer.
pub open spec fn parse_validity(memory: Memory, tag: u8, ptr: u32, len: int) -> Result<
    ValidityModel,
    GuestError,
> {
    if tag == validity::NON_NULLABLE {
        Ok(ValidityModel::NonNullable)
    } else if tag == validity::ALL_VALID {
        Ok(ValidityModel::AllValid)
    } else if tag == validity::ALL_INVALID {
        Ok(ValidityModel::AllInvalid)
    } else if tag == validity::BITMAP {
        if memory.holds(ptr as int, bitmap_len(len)) {
            Ok(ValidityModel::Bitmap(memory.load(ptr as int, bitmap_len(len))))
        } else {
            Err(GuestError::of("validity bitmap outside guest memory"))
        }
    } else {
        Err(GuestError::of("bad validity tag"))
    }
}

/// The buffers named by the first `n` entries of the table at `start`.
pub open spec fn parse_buffers(memory: Memory, bytes: Seq<u8>, start: int, n: nat) -> Result<
    Seq<Seq<u8>>,
    GuestError,
>
    decreases n,
{
    if n == 0 {
        Ok(Seq::empty())
    } else {
        match parse_buffers(memory, bytes, start, (n - 1) as nat) {
            Err(e) => Err(e),
            Ok(before) => {
                let entry = start + 8 * (n - 1);
                if entry + 8 > bytes.len() {
                    Err(GuestError::of("truncated buffer table"))
                } else {
                    let ptr = u32_at(bytes, entry) as int;
                    let len = u32_at(bytes, entry + 4) as int;
                    if memory.holds(ptr, len) {
                        Ok(before.push(memory.load(ptr, len)))
                    } else {
                        Err(GuestError::of("buffer outside guest memory"))
                    }
                }
            },
        }
    }
}

/// The frame at `offset` of `bytes` and the offset just past it, with every pointer followed into
/// `memory`, or the first error met.
pub open spec fn parse_frame(memory: Memory, bytes: Seq<u8>, offset: int, depth: int) -> Result<
    (Frame, int),
    GuestError,
>
    decreases MAX_DEPTH + 1 - depth, 0nat,
{
    if depth > MAX_DEPTH {
        Err(GuestError::of("array nested too deeply"))
    } else if offset + array_frame::HEADER > bytes.len() {
        Err(GuestError::of("truncated array frame"))
    } else {
        let len = u32_at(bytes, offset + array_frame::LEN);
        let n_buffers = u32_at(bytes, offset + array_frame::N_BUFFERS);
        let table = offset + array_frame::HEADER;
        let count = table + 8 * n_buffers;
        match parse_buffers(memory, bytes, table, n_buffers as nat) {
            Err(e) => Err(e),
            Ok(buffers) => if count + 4 > bytes.len() {
                Err(GuestError::of("truncated child count"))
            } else {
                match parse_frames(
                    memory,
                    bytes,
                    count + 4,
                    depth + 1,
                    u32_at(bytes, count) as nat,
                ) {
                    Err(e) => Err(e),
                    Ok((children, end)) => match parse_validity(
                        memory,
                        bytes[offset + array_frame::VALIDITY],
                        u32_at(bytes, offset + array_frame::VALIDITY_PTR),
                        len as int,
                    ) {
                        Err(e) => Err(e),
                        Ok(validity) => match (Frame {
                            shape: bytes[offset + array_frame::SHAPE],
                            param: bytes[offset + array_frame::PARAM],
                            validity,
                            len: len as nat,
                            buffers,
                            children,
                        }).interpret() {
                            Err(e) => Err(e),
                            Ok(frame) => Ok((frame, end)),
                        },
                    },
                }
            },
        }
    }
}

/// The `n` frames that follow one another from `start`, and the offset just past them.
pub open spec fn parse_frames(
    memory: Memory,
    bytes: Seq<u8>,
    start: int,
    depth: int,
    n: nat,
) -> Result<(Seq<Frame>, int), GuestError>
    decreases MAX_DEPTH + 1 - depth, n,
{
    if n == 0 {
        Ok((Seq::empty(), start))
    } else {
        match parse_frames(memory, bytes, start, depth, (n - 1) as nat) {
            Err(e) => Err(e),
            Ok((before, offset)) => match parse_frame(memory, bytes, offset, depth) {
                Err(e) => Err(e),
                Ok((frame, end)) => Ok((before.push(frame), end)),
            },
        }
    }
}

/// The array frame at address `ptr`: the bytes from there to the end of the memory are parsed.
pub open spec fn parse(memory: Memory, ptr: u32) -> Result<Frame, GuestError> {
    let bytes = if ptr <= memory.bytes.len() {
        memory.bytes.skip(ptr as int)
    } else {
        Seq::empty()
    };
    match parse_frame(memory, bytes, 0, 0) {
        Err(e) => Err(e),
        Ok((frame, _)) => Ok(frame),
    }
}

/// Keeping allocated bytes is transitive.
pub proof fn lemma_kept_in_trans(a: Memory, b: Memory, c: Memory)
    requires
        a.kept_in(b),
        b.kept_in(c),
    ensures
        a.kept_in(c),
{
    assert forall|i: int| 0 <= i < a.used() && i < a.bytes.len() implies #[trigger] c.bytes[i]
        == a.bytes[i] by {
        assert(b.bytes[i] == a.bytes[i]);
    }
}

/// What is allocated and kept can be loaded unchanged.
pub proof fn lemma_load_kept(a: Memory, b: Memory, address: int, len: int)
    requires
        a.kept_in(b),
        a.holds(address, len),
        address + len <= a.used(),
    ensures
        b.holds(address, len),
        b.load(address, len) == a.load(address, len),
{
    assert forall|i: int| 0 <= i < len implies b.load(address, len)[i] == a.load(address, len)[i] by {
        assert(b.bytes[address + i] == a.bytes[address + i]);
    }
    assert(b.load(address, len) =~= a.load(address, len));
}

pub proof fn lemma_encode_validity_keeps(content: ValidityModel, memory: Memory)
    requires
        memory.wf(),
    ensures
        encode_validity(content, memory) matches Some((_, after)) ==> {
            &&& after.wf()
            &&& memory.kept_in(after)
        },
{
    if let ValidityModel::Bitmap(bits) = content {
        lemma_alloc_bytes(memory, bits);
    }
}

pub proof fn lemma_encode_buffers_keeps(buffers: Seq<Seq<u8>>, memory: Memory)
    requires
        memory.wf(),
    ensures
        encode_buffers(buffers, memory) matches Some((table, after)) ==> {
            &&& after.wf()
            &&& memory.kept_in(after)
            &&& table.len() == 8 * buffers.len()
        },
    decreases buffers.len(),
{
    if buffers.len() > 0 {
        lemma_encode_buffers_keeps(buffers.drop_last(), memory);
        if let Some((_, before)) = encode_buffers(buffers.drop_last(), memory) {
            lemma_alloc_bytes(before, buffers.last());
            if let Some((_, after)) = alloc_bytes_spec(before, buffers.last()) {
                lemma_kept_in_trans(memory, before, after);
            }
        }
    }
}

/// Writing a tree only adds to the memory.
pub proof fn lemma_encode_keeps(frame: Frame, memory: Memory)
    requires
        memory.wf(),
    ensures
        encode(frame, memory) matches Some((bytes, after)) ==> {
            &&& after.wf()
            &&& memory.kept_in(after)
            &&& bytes.len() >= array_frame::HEADER + 4
        },
    decreases frame,
{
    lemma_encode_validity_keeps(frame.validity, memory);
    if let Some((ptr, with_validity)) = encode_validity(frame.validity, memory) {
        lemma_encode_buffers_keeps(frame.buffers, with_validity);
        if let Some((table, with_buffers)) = encode_buffers(frame.buffers, with_validity) {
            lemma_encode_all_keeps(frame.children, with_buffers);
            if let Some((_, after)) = encode_all(frame.children, with_buffers) {
                lemma_kept_in_trans(memory, with_validity, with_buffers);
                lemma_kept_in_trans(memory, with_buffers, after);
            }
        }
    }
}

proof fn lemma_encode_all_keeps(frames: Seq<Frame>, memory: Memory)
    requires
        memory.wf(),
    ensures
        encode_all(frames, memory) matches Some((_, after)) ==> {
            &&& after.wf()
            &&& memory.kept_in(after)
        },
    decreases frames,
{
    if frames.len() > 0 {
        lemma_encode_all_keeps(frames.drop_last(), memory);
        if let Some((_, before)) = encode_all(frames.drop_last(), memory) {
            lemma_encode_keeps(frames.last(), before);
            if let Some((_, after)) = encode(frames.last(), before) {
                lemma_kept_in_trans(memory, before, after);
            }
        }
    }
}

/// A buffer table leads back to the buffers it was written for.
proof fn lemma_parse_buffers(
    buffers: Seq<Seq<u8>>,
    memory: Memory,
    later: Memory,
    bytes: Seq<u8>,
    start: int,
)
    requires
        memory.wf(),
        0 <= start,
        forall|i: int| 0 <= i < buffers.len() ==> (#[trigger] buffers[i]).len() <= u32::MAX,
        encode_buffers(buffers, memory) matches Some((table, after)) && after.kept_in(later)
            && start + table.len() <= bytes.len() && bytes.subrange(start, start + table.len())
            == table,
    ensures
        parse_buffers(later, bytes, start, buffers.len()) == Ok::<_, GuestError>(buffers),
    decreases buffers.len(),
{
    if buffers.len() == 0 {
        assert(buffers =~= Seq::empty());
    } else {
        let (table, after) = encode_buffers(buffers, memory).unwrap();
        let (front, before) = encode_buffers(buffers.drop_last(), memory).unwrap();
        let last = buffers.last();
        let (ptr, _) = alloc_bytes_spec(before, last).unwrap();
        lemma_encode_buffers_keeps(buffers.drop_last(), memory);
        lemma_alloc_bytes(before, last);
        lemma_kept_in_trans(before, after, later);
        let at = front.len() as int;
        lemma_piece(bytes, start, table, 0, at);
        lemma_piece(bytes, start, table, at, 4);
        lemma_piece(bytes, start, table, at + 4, 4);
        assert(table.subrange(0, at) =~= front);
        assert(table.subrange(at, at + 4) =~= u32_le(ptr));
        assert(table.subrange(at + 4, at + 8) =~= u32_le(last.len() as u32));
        assert forall|i: int| 0 <= i < buffers.drop_last().len() implies (
        #[trigger] buffers.drop_last()[i]).len() <= u32::MAX by {
            assert(buffers.drop_last()[i] == buffers[i]);
        }
        lemma_parse_buffers(buffers.drop_last(), memory, later, bytes, start);
        let entry = start + 8 * (buffers.len() - 1);
        lemma_u32_round_trip(bytes, entry, ptr);
        lemma_u32_round_trip(bytes, entry + 4, last.len() as u32);
        lemma_load_kept(after, later, ptr as int, last.len() as int);
        assert(buffers.drop_last().push(last) =~= buffers);
    }
}

/// Parsing the encoded frame of a tree gives the tree back, wherever the frame stands and
/// whatever was allocated since.
pub proof fn lemma_parse_encoded(
    frame: Frame,
    memory: Memory,
    later: Memory,
    bytes: Seq<u8>,
    offset: int,
    depth: int,
)
    requires
        memory.wf(),
        0 <= offset,
        0 <= depth,
        frame.fits(depth),
        frame.legible(),
        encode(frame, memory) matches Some((encoded, after)) && after.kept_in(later) && offset
            + encoded.len() <= bytes.len() && bytes.subrange(offset, offset + encoded.len())
            == encoded,
    ensures
        parse_frame(later, bytes, offset, depth) == Ok::<_, GuestError>(
            (frame, offset + encode(frame, memory).unwrap().0.len()),
        ),
    decreases frame,
{
    let (encoded, after) = encode(frame, memory).unwrap();
    let (ptr, with_validity) = encode_validity(frame.validity, memory).unwrap();
    let (table, with_buffers) = encode_buffers(frame.buffers, with_validity).unwrap();
    let (children, _) = encode_all(frame.children, with_buffers).unwrap();
    lemma_encode_validity_keeps(frame.validity, memory);
    lemma_encode_buffers_keeps(frame.buffers, with_validity);
    lemma_encode_all_keeps(frame.children, with_buffers);
    lemma_kept_in_trans(with_buffers, after, later);
    lemma_kept_in_trans(with_validity, with_buffers, later);

    let header = frame.header(ptr);
    assert(header.len() == array_frame::HEADER);
    let table_at = offset + array_frame::HEADER;
    let count_at = table_at + table.len();
    let children_at = count_at + 4;
    let after_table = 16 + table.len() as int;
    lemma_piece(bytes, offset, encoded, 0, 4);
    lemma_piece(bytes, offset, encoded, 4, 4);
    lemma_piece(bytes, offset, encoded, 8, 4);
    lemma_piece(bytes, offset, encoded, 12, 4);
    lemma_piece(bytes, offset, encoded, 16, table.len() as int);
    lemma_piece(bytes, offset, encoded, after_table, 4);
    lemma_piece(bytes, offset, encoded, after_table + 4, children.len() as int);
    let tags = seq![frame.shape, frame.param, frame.validity.tag(), 0u8];
    assert(encoded.subrange(0, 4) =~= tags);
    assert(bytes.subrange(offset, offset + 4)[0] == tags[0]);
    assert(bytes.subrange(offset, offset + 4)[1] == tags[1]);
    assert(bytes.subrange(offset, offset + 4)[2] == tags[2]);
    assert(encoded.subrange(4, 8) =~= u32_le(frame.len as u32));
    assert(encoded.subrange(8, 12) =~= u32_le(ptr));
    assert(encoded.subrange(12, 16) =~= u32_le(frame.buffers.len() as u32));
    assert(encoded.subrange(16, after_table) =~= table);
    assert(encoded.subrange(after_table, after_table + 4) =~= u32_le(
        frame.children.len() as u32,
    ));
    assert(encoded.subrange(after_table + 4, after_table + 4 + children.len()) =~= children);
    lemma_u32_round_trip(bytes, offset + 4, frame.len as u32);
    lemma_u32_round_trip(bytes, offset + 8, ptr);
    lemma_u32_round_trip(bytes, offset + 12, frame.buffers.len() as u32);
    lemma_u32_round_trip(bytes, count_at, frame.children.len() as u32);
    lemma_parse_buffers(frame.buffers, with_validity, later, bytes, table_at);
    lemma_parse_all_encoded(
        frame.children,
        with_buffers,
        later,
        bytes,
        children_at,
        depth + 1,
    );
    if let ValidityModel::Bitmap(bits) = frame.validity {
        lemma_alloc_bytes(memory, bits);
        lemma_load_kept(with_validity, later, ptr as int, bits.len() as int);
    }
    assert(parse_validity(later, frame.validity.tag(), ptr, frame.len as int) == Ok::<
        _,
        GuestError,
    >(frame.validity));
}

/// Parsing frames that follow one another gives back the trees they encode.
proof fn lemma_parse_all_encoded(
    frames: Seq<Frame>,
    memory: Memory,
    later: Memory,
    bytes: Seq<u8>,
    start: int,
    depth: int,
)
    requires
        memory.wf(),
        0 <= start,
        0 <= depth,
        forall|i: int|
            0 <= i < frames.len() ==> (#[trigger] frames[i]).fits(depth) && frames[i].legible(),
        encode_all(frames, memory) matches Some((encoded, after)) && after.kept_in(later) && start
            + encoded.len() <= bytes.len() && bytes.subrange(start, start + encoded.len())
            == encoded,
    ensures
        parse_frames(later, bytes, start, depth, frames.len()) == Ok::<_, GuestError>(
            (frames, start + encode_all(frames, memory).unwrap().0.len()),
        ),
    decreases frames,
{
    if frames.len() == 0 {
        assert(frames =~= Seq::empty());
    } else {
        let (encoded, after) = encode_all(frames, memory).unwrap();
        let (front, before) = encode_all(frames.drop_last(), memory).unwrap();
        let (back, _) = encode(frames.last(), before).unwrap();
        lemma_encode_all_keeps(frames.drop_last(), memory);
        lemma_encode_keeps(frames.last(), before);
        lemma_kept_in_trans(before, after, later);
        assert(bytes.subrange(start, start + front.len()) =~= encoded.take(front.len() as int));
        assert(encoded.take(front.len() as int) =~= front);
        assert forall|i: int| 0 <= i < frames.drop_last().len() implies (
        #[trigger] frames.drop_last()[i]).fits(depth) && frames.drop_last()[i].legible() by {
            assert(frames.drop_last()[i] == frames[i]);
        }
        lemma_parse_all_encoded(frames.drop_last(), memory, later, bytes, start, depth);
        let offset = start + front.len();
        assert(bytes.subrange(offset, offset + back.len()) =~= bytes.subrange(
            start,
            start + encoded.len(),
        ).skip(front.len() as int));
        assert(encoded.skip(front.len() as int) =~= back);
        lemma_parse_encoded(frames.last(), before, later, bytes, offset, depth);
        assert(frames.drop_last().push(frames.last()) =~= frames);
    }
}

/// What is written can be read: parsing at the address of a written tree gives the tree back.
pub proof fn law_parse_written(frame: Frame, memory: Memory)
    requires
        memory.wf(),
        frame.fits(0),
        frame.legible(),
    ensures
        written(frame, memory) matches Some((ptr, later)) ==> parse(later, ptr) == Ok::<
            _,
            GuestError,
        >(frame),
{
    if let Some((ptr, later)) = written(frame, memory) {
        let (encoded, after) = encode(frame, memory).unwrap();
        lemma_encode_keeps(frame, memory);
        lemma_alloc_bytes(after, encoded);
        let bytes = later.bytes.skip(ptr as int);
        assert(bytes.subrange(0, encoded.len() as int) =~= later.load(
            ptr as int,
            encoded.len() as int,
        ));
        lemma_parse_encoded(frame, memory, later, bytes, 0, 0);
    }
}

/// Entry `i` of a buffer table leads to buffer `i`.
pub proof fn lemma_buffer_entry(
    buffers: Seq<Seq<u8>>,
    memory: Memory,
    later: Memory,
    bytes: Seq<u8>,
    start: int,
    i: int,
)
    requires
        memory.wf(),
        0 <= start,
        0 <= i < buffers.len(),
        buffers[i].len() <= u32::MAX,
        encode_buffers(buffers, memory) matches Some((table, after)) && after.kept_in(later)
            && start + table.len() <= bytes.len() && bytes.subrange(start, start + table.len())
            == table,
    ensures
        encode_buffers(buffers, memory) matches Some((table, _)) ==> table.len() == 8
            * buffers.len(),
        u32_at(bytes, start + 8 * i + 4) == buffers[i].len(),
        later.holds(u32_at(bytes, start + 8 * i) as int, buffers[i].len() as int),
        later.load(u32_at(bytes, start + 8 * i) as int, buffers[i].len() as int) == buffers[i],
    decreases buffers.len(),
{
    let (table, after) = encode_buffers(buffers, memory).unwrap();
    let (front, before) = encode_buffers(buffers.drop_last(), memory).unwrap();
    let last = buffers.last();
    let (ptr, _) = alloc_bytes_spec(before, last).unwrap();
    lemma_encode_buffers_keeps(buffers.drop_last(), memory);
    lemma_alloc_bytes(before, last);
    lemma_kept_in_trans(before, after, later);
    lemma_table_len(buffers.drop_last(), memory);
    let at = front.len() as int;
    lemma_piece(bytes, start, table, 0, at);
    lemma_piece(bytes, start, table, at, 4);
    lemma_piece(bytes, start, table, at + 4, 4);
    assert(table.subrange(0, at) =~= front);
    assert(table.subrange(at, at + 4) =~= u32_le(ptr));
    assert(table.subrange(at + 4, at + 8) =~= u32_le(last.len() as u32));
    if i < buffers.len() - 1 {
        assert(buffers.drop_last()[i] == buffers[i]);
        lemma_buffer_entry(buffers.drop_last(), memory, later, bytes, start, i);
    } else {
        lemma_u32_round_trip(bytes, start + 8 * i, ptr);
        lemma_u32_round_trip(bytes, start + 8 * i + 4, last.len() as u32);
        lemma_load_kept(after, later, ptr as int, last.len() as int);
    }
}

/// A buffer table has eight bytes per buffer.
proof fn lemma_table_len(buffers: Seq<Seq<u8>>, memory: Memory)
    ensures
        encode_buffers(buffers, memory) matches Some((table, _)) ==> table.len() == 8
            * buffers.len(),
    decreases buffers.len(),
{
    if buffers.len() > 0 {
        lemma_table_len(buffers.drop_last(), memory);
    }
}

/// What a reader finds in an encoded frame, byte by byte: the tags, the length, the bitmap where
/// there is one, every buffer by its entry in the table, and the number of children right after.
pub proof fn law_frame_layout(frame: Frame, memory: Memory, i: int)
    requires
        memory.wf(),
        frame.fits(0),
    ensures
        encode(frame, memory) matches Some((bytes, after)) ==> {
            let n = frame.buffers.len();
            &&& 20 + 8 * n <= bytes.len()
            &&& bytes[0] == frame.shape
            &&& bytes[1] == frame.param
            &&& u32_at(bytes, 4) == frame.len
            &&& u32_at(bytes, 12) == n
            &&& u32_at(bytes, 16 + 8 * n as int) == frame.children.len()
            &&& match frame.validity {
                ValidityModel::NonNullable => bytes[2] == 0,
                ValidityModel::AllValid => bytes[2] == 1,
                ValidityModel::AllInvalid => bytes[2] == 2,
                ValidityModel::Bitmap(bits) => bytes[2] == 3 && after.load(
                    u32_at(bytes, 8) as int,
                    bits.len() as int,
                ) == bits,
            }
            &&& 0 <= i < n ==> {
                let (ptr, len) = (u32_at(bytes, 16 + 8 * i), u32_at(bytes, 16 + 8 * i + 4));
                after.holds(ptr as int, len as int) && after.load(ptr as int, len as int)
                    == frame.buffers[i]
            }
        },
{
    if let Some((bytes, after)) = encode(frame, memory) {
        let (ptr, with_validity) = encode_validity(frame.validity, memory).unwrap();
        let (table, with_buffers) = encode_buffers(frame.buffers, with_validity).unwrap();
        let (children, _) = encode_all(frame.children, with_buffers).unwrap();
        lemma_encode_validity_keeps(frame.validity, memory);
        lemma_encode_buffers_keeps(frame.buffers, with_validity);
        lemma_encode_all_keeps(frame.children, with_buffers);
        lemma_kept_in_trans(with_validity, with_buffers, after);
        lemma_table_len(frame.buffers, with_validity);
        let tags = seq![frame.shape, frame.param, frame.validity.tag(), 0u8];
        let count = 16 + table.len() as int;
        assert(bytes.subrange(0, 4) =~= tags);
        assert(bytes.subrange(0, 4)[0] == bytes[0] && bytes.subrange(0, 4)[1] == bytes[1]
            && bytes.subrange(0, 4)[2] == bytes[2]);
        assert(bytes.subrange(4, 8) =~= u32_le(frame.len as u32));
        assert(bytes.subrange(8, 12) =~= u32_le(ptr));
        assert(bytes.subrange(12, 16) =~= u32_le(frame.buffers.len() as u32));
        assert(bytes.subrange(16, count) =~= table);
        assert(bytes.subrange(count, count + 4) =~= u32_le(frame.children.len() as u32));
        lemma_u32_round_trip(bytes, 4, frame.len as u32);
        lemma_u32_round_trip(bytes, 8, ptr);
        lemma_u32_round_trip(bytes, 12, frame.buffers.len() as u32);
        lemma_u32_round_trip(bytes, count, frame.children.len() as u32);
        if let ValidityModel::Bitmap(bits) = frame.validity {
            lemma_alloc_bytes(memory, bits);
            lemma_load_kept(with_validity, after, ptr as int, bits.len() as int);
        }
        if 0 <= i < frame.buffers.len() {
            assert(frame.buffers[i].len() <= u32::MAX);
            lemma_buffer_entry(frame.buffers, with_validity, after, bytes, 16, i);
        }
    }
}

/// Reading a frame by its shape keeps what it says of its elements and takes its first buffers and
/// children, as many as the shape reads; reading it once more changes nothing.
pub proof fn law_interpret(frame: Frame)
    ensures
        frame.interpret() matches Ok(read) ==> {
            &&& read.shape == frame.shape
            &&& read.len == frame.len
            &&& read.validity == frame.validity
            &&& read.buffers.len() <= frame.buffers.len()
            &&& read.buffers == frame.buffers.take(read.buffers.len() as int)
            &&& read.children.len() <= frame.children.len()
            &&& read.children == frame.children.take(read.children.len() as int)
            &&& read.interpret() == Ok::<Frame, GuestError>(read)
        },
{
    if let Ok(read) = frame.interpret() {
        assert(read.buffers =~= frame.buffers.take(read.buffers.len() as int));
        assert(read.children =~= frame.children.take(read.children.len() as int));
        let again = read.interpret()->Ok_0;
        assert(again.buffers =~= read.buffers);
        assert(again.children =~= read.children);
    }
}

/// A frame is read exactly if its shape is known and it has what the shape reads: a buffer for flat
/// arrays, offsets, sizes and elements for lists, and a child for the other nested shapes but
/// structs.
pub proof fn law_interpret_accepts(frame: Frame)
    ensures
        frame.interpret() is Ok <==> {
            &&& frame.shape <= 10
            &&& frame.shape == shape::BOOL || frame.shape == shape::PRIMITIVE || frame.shape
                == shape::DECIMAL || frame.shape == shape::VAR_BIN_VIEW ==> frame.buffers.len() >= 1
            &&& frame.shape == shape::PRIMITIVE ==> frame.param <= 10
            &&& frame.shape == shape::DECIMAL ==> frame.param <= 5
            &&& frame.shape == shape::LIST ==> frame.children.len() >= 3
            &&& frame.shape == shape::FIXED_SIZE_LIST || frame.shape == shape::UNION || frame.shape
                == shape::MAP || frame.shape == shape::EXTENSION ==> frame.children.len() >= 1
        },
{
}

/// Whatever is in memory, a frame that is parsed is legible, of the shape and length that its bytes
/// say, nested no deeper than the limit, and ends inside the bytes.
pub proof fn law_parsed_is_legible(memory: Memory, bytes: Seq<u8>, offset: int, depth: int)
    requires
        0 <= offset,
    ensures
        parse_frame(memory, bytes, offset, depth) matches Ok((frame, end)) ==> {
            &&& depth <= 32
            &&& offset + 20 <= end <= bytes.len()
            &&& frame.legible()
            &&& frame.shape == bytes[offset]
            &&& frame.len == u32_at(bytes, offset + 4)
        },
    decreases MAX_DEPTH + 1 - depth, 0nat,
{
    if depth <= MAX_DEPTH && offset + array_frame::HEADER <= bytes.len() {
        let n_buffers = u32_at(bytes, offset + array_frame::N_BUFFERS);
        let count = offset + array_frame::HEADER + 8 * n_buffers;
        if count + 4 <= bytes.len() {
            let n = u32_at(bytes, count) as nat;
            lemma_parsed_all_legible(memory, bytes, count + 4, depth + 1, n);
            if let Ok((frame, end)) = parse_frame(memory, bytes, offset, depth) {
                let (children, _) = parse_frames(memory, bytes, count + 4, depth + 1, n)->Ok_0;
                assert forall|i: int| 0 <= i < frame.children.len() implies (
                #[trigger] frame.children[i]).legible() by {
                    assert(frame.children[i] == children[i]);
                }
                lemma_interpreted(memory, bytes, offset, depth);
            }
        }
    }
}

/// A parsed frame is what its shape reads of it.
proof fn lemma_interpreted(memory: Memory, bytes: Seq<u8>, offset: int, depth: int)
    ensures
        parse_frame(memory, bytes, offset, depth) matches Ok((frame, _)) ==> frame.interpret()
            == Ok::<Frame, GuestError>(frame),
{
    if let Ok((frame, _)) = parse_frame(memory, bytes, offset, depth) {
        let again = frame.interpret()->Ok_0;
        assert(again.buffers =~= frame.buffers);
        assert(again.children =~= frame.children);
    }
}

proof fn lemma_parsed_all_legible(
    memory: Memory,
    bytes: Seq<u8>,
    start: int,
    depth: int,
    n: nat,
)
    requires
        0 <= start <= bytes.len(),
    ensures
        parse_frames(memory, bytes, start, depth, n) matches Ok((frames, end)) ==> {
            &&& frames.len() == n
            &&& start <= end <= bytes.len()
            &&& forall|i: int| 0 <= i < frames.len() ==> (#[trigger] frames[i]).legible()
        },
    decreases MAX_DEPTH + 1 - depth, n,
{
    if n > 0 {
        lemma_parsed_all_legible(memory, bytes, start, depth, (n - 1) as nat);
        if let Ok((_, at)) = parse_frames(memory, bytes, start, depth, (n - 1) as nat) {
            if depth <= MAX_DEPTH {
                law_parsed_is_legible(memory, bytes, at, depth);
            }
        }
    }
}

} // verus!
