//! The [`WasmEncoding`] trait an encoding author implements, and the entry points that drive it.

use vstd::prelude::*;

use crate::decoded::Decoded;
use crate::error::GuestResult;
use crate::frame::written;
use crate::host::alloc_bytes_spec;
use crate::node::child_specs_bytes;
use crate::node::header_is;
use crate::node::header_is_valid;
use crate::node::node_is;
use crate::node::node_is_valid;
use crate::node::write_child_specs;
use crate::node::ChildSpec;
use crate::node::NodeHeader;
use crate::node::NodeView;
use crate::runtime::LinearMemory;
use crate::runtime::Memory;

verus! {

/// The decoder for a single array encoding.
///
/// It receives the encoding's real serialized parts: metadata, raw buffers, and children. Because
/// only the encoding knows its children's dtypes, decode happens in two steps:
///
/// 1. [`children`](Self::children): from the metadata, declare each serialized child's dtype and
///    length so the host can decode them.
/// 2. [`decode`](Self::decode): with buffers and decoded children in hand, produce the output.
pub trait WasmEncoding {
    /// Declare the dtype and length of each serialized child, in child order.
    ///
    /// `header.n_children` is the actual number of serialized children; use it to detect optional
    /// trailing children such as a validity bitmap.
    fn children(header: &NodeHeader<'_>) -> GuestResult<Vec<ChildSpec>>;

    /// Decode the node, whose buffers and children are in `memory`, into its canonical output.
    fn decode(memory: &LinearMemory, node: &NodeView<'_>) -> GuestResult<Decoded>;
}

/// The input an entry point is called with: the bytes it names, or `None` for a trap when they
/// are not in the memory. A length that is not positive names no bytes.
pub open spec fn input_spec(memory: Memory, in_ptr: i32, in_len: i32) -> Option<Seq<u8>> {
    if in_len <= 0 {
        Some(Seq::empty())
    } else if memory.holds(in_ptr as u32 as int, in_len as int) {
        Some(memory.load(in_ptr as u32 as int, in_len as int))
    } else {
        None
    }
}

/// The bytes an entry point is called with.
pub fn input_slice(memory: &LinearMemory, in_ptr: i32, in_len: i32) -> (input: Option<&[u8]>)
    ensures
        match input {
            Some(bytes) => input_spec(memory@, in_ptr, in_len) == Some(bytes@),
            None => input_spec(memory@, in_ptr, in_len) is None,
        },
{
    if in_len <= 0 {
        let empty: Option<&[u8]> = memory.load(0, 0);
        assert(memory@.load(0, 0) =~= Seq::empty());
        empty
    } else {
        memory.load(in_ptr as u32, in_len as usize)
    }
}

/// What `vx_children` answers for what the encoding declared, and the memory after it: -1 for an
/// error, else the address of the written descriptors; `None` for a trap.
pub open spec fn children_answer(memory: Memory, declared: GuestResult<Vec<ChildSpec>>) -> Option<
    (i32, Memory),
> {
    match declared {
        Err(_) => Some((-1i32, memory)),
        Ok(specs) => match alloc_bytes_spec(memory, child_specs_bytes(specs@)) {
            Some((address, after)) => Some((address as i32, after)),
            None => None,
        },
    }
}

/// What `vx_decode` answers for what the encoding decoded, and the memory after it: -1 for an
/// error, else the address of the written array; `None` for a trap.
pub open spec fn decode_answer(memory: Memory, decoded: GuestResult<Decoded>) -> Option<
    (i32, Memory),
> {
    match decoded {
        Err(_) => Some((-1i32, memory)),
        Ok(array) => match written(array.frame(), memory) {
            Some((address, after)) => Some((address as i32, after)),
            None => None,
        },
    }
}

/// Answer `vx_children` with what the encoding declared.
pub fn answer_children(memory: &mut LinearMemory, declared: GuestResult<Vec<ChildSpec>>) -> (answer:
    Option<i32>)
    requires
        old(memory)@.wf(),
    ensures
        final(memory)@.wf(),
        match children_answer(old(memory)@, declared) {
            Some((value, after)) => answer == Some(value) && final(memory)@ == after,
            None => answer is None,
        },
{
    match declared {
        Ok(specs) => write_child_specs(memory, specs.as_slice()),
        Err(_) => Some(-1),
    }
}

/// Answer `vx_decode` with what the encoding decoded.
pub fn answer_decode(memory: &mut LinearMemory, decoded: GuestResult<Decoded>) -> (answer: Option<
    i32,
>)
    requires
        old(memory)@.wf(),
    ensures
        final(memory)@.wf(),
        match decode_answer(old(memory)@, decoded) {
            Some((value, after)) => answer == Some(value) && final(memory)@ == after,
            None => answer is None,
        },
{
    match decoded {
        Ok(array) => match array.write(memory) {
            Some(address) => Some(address as i32),
            None => None,
        },
        Err(_) => Some(-1),
    }
}

/// The `vx_children` entry point. `None` is for a trap.
///
/// A frame that does not parse is answered with -1, and so is an encoding's own error; otherwise
/// the answer is the address of the descriptors of what the encoding declared.
pub fn __run_children<E: WasmEncoding>(memory: &mut LinearMemory, in_ptr: i32, in_len: i32) -> (
    answer: Option<i32>)
    requires
        old(memory)@.wf(),
    ensures
        final(memory)@.wf(),
        match input_spec(old(memory)@, in_ptr, in_len) {
            None => answer is None && final(memory)@ == old(memory)@,
            Some(input) => if header_is_valid(input) {
                exists|header: NodeHeader<'_>, declared: GuestResult<Vec<ChildSpec>>|
                    {
                        &&& header_is(header, input)
                        &&& #[trigger] call_ensures(E::children, (&header,), declared)
                        &&& match children_answer(old(memory)@, declared) {
                            Some((value, after)) => answer == Some(value) && final(memory)@
                                == after,
                            None => answer is None,
                        }
                    }
            } else {
                answer == Some(-1i32) && final(memory)@ == old(memory)@
            },
        },
{
    let declared: GuestResult<Vec<ChildSpec>> = {
        let input: &[u8] = match input_slice(memory, in_ptr, in_len) {
            Some(input) => input,
            None => {
                return None;
            },
        };
        match NodeHeader::parse(input) {
            Ok(header) => {
                let declared = E::children(&header);
                assert(header_is(header, input@) && call_ensures(
                    E::children,
                    (&header,),
                    declared,
                ));
                declared
            },
            Err(_) => {
                return Some(-1);
            },
        }
    };
    answer_children(memory, declared)
}

/// The `vx_decode` entry point. `None` is for a trap.
///
/// A frame that does not parse is answered with -1, and so is an encoding's own error; otherwise
/// the answer is the address of the array that the encoding decoded.
pub fn __run_decode<E: WasmEncoding>(memory: &mut LinearMemory, in_ptr: i32, in_len: i32) -> (answer:
    Option<i32>)
    requires
        old(memory)@.wf(),
    ensures
        final(memory)@.wf(),
        match input_spec(old(memory)@, in_ptr, in_len) {
            None => answer is None && final(memory)@ == old(memory)@,
            Some(input) => if node_is_valid(input) {
                exists|node: NodeView<'_>, decoded: GuestResult<Decoded>|
                    {
                        &&& node_is(node, input)
                        &&& #[trigger] call_ensures(E::decode, (&*old(memory), &node), decoded)
                        &&& match decode_answer(old(memory)@, decoded) {
                            Some((value, after)) => answer == Some(value) && final(memory)@
                                == after,
                            None => answer is None,
                        }
                    }
            } else {
                answer == Some(-1i32) && final(memory)@ == old(memory)@
            },
        },
{
    let decoded: GuestResult<Decoded> = {
        let input: &[u8] = match input_slice(memory, in_ptr, in_len) {
            Some(input) => input,
            None => {
                return None;
            },
        };
        match NodeView::parse(input) {
            Ok(node) => {
                let decoded = E::decode(memory, &node);
                assert(node_is(node, input@) && call_ensures(
                    E::decode,
                    (&*memory, &node),
                    decoded,
                ));
                decoded
            },
            Err(_) => {
                return Some(-1);
            },
        }
    };
    answer_decode(memory, decoded)
}

} // verus!
