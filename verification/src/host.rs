//! Guest allocator API.
//!
//! The host pushes buffers and decoded children into guest memory up front, so the only export
//! the SDK needs beyond the entry points is the allocator behind `vx_alloc`.

use vstd::prelude::*;

use crate::runtime::LinearMemory;
use crate::runtime::Memory;

verus! {

/// Alignment of every allocation, part of the ABI: kernels view typed data in place.
pub const ALIGN: u32 = 8;

/// The largest size whose aligned extent is within a 32-bit `isize`.
pub const MAX_ALLOCATION: u32 = 2147483640;

/// The bytes an allocation of `len` takes: at least one.
pub open spec fn allocation_size(len: int) -> int {
    if len < 1 {
        1
    } else {
        len
    }
}

/// The outcome of [`allocate`]: the address and the memory after it, or `None` for a trap.
pub open spec fn allocate_spec(memory: Memory, len: int) -> Option<(u32, Memory)> {
    if allocation_size(len) > MAX_ALLOCATION {
        None
    } else {
        memory.allocate(allocation_size(len), ALIGN as int)
    }
}

/// The outcome of [`alloc_bytes`]: the address and the memory after it, or `None` for a trap.
#[verifier::opaque]
pub open spec fn alloc_bytes_spec(memory: Memory, bytes: Seq<u8>) -> Option<(u32, Memory)> {
    match allocate_spec(memory, bytes.len() as int) {
        Some((address, later)) => Some((address, later.store(address as int, bytes))),
        None => None,
    }
}

/// Stored bytes are found at their address, which is 8-byte aligned and not 0, and nothing that
/// was allocated before changes.
pub proof fn lemma_alloc_bytes(memory: Memory, bytes: Seq<u8>)
    requires
        memory.wf(),
    ensures
        alloc_bytes_spec(memory, bytes) matches Some((address, later)) ==> {
            &&& later.wf()
            &&& memory.used() <= address
            &&& 0 < address
            &&& address % 8 == 0
            &&& later.used() == address + allocation_size(bytes.len() as int)
            &&& later.next != 0
            &&& later.holds(address as int, bytes.len() as int)
            &&& later.load(address as int, bytes.len() as int) == bytes
            &&& memory.kept_in(later)
        },
{
    reveal(alloc_bytes_spec);
    memory.lemma_allocate(allocation_size(bytes.len() as int), ALIGN as int);
    if let Some((address, later)) = alloc_bytes_spec(memory, bytes) {
        assert(later.load(address as int, bytes.len() as int) =~= bytes);
    }
}

/// Allocate `len` bytes in linear memory, 8-byte aligned, and return the address.
///
/// The allocation is never freed. `None` stands for the guest trapping because the memory is
/// exhausted.
pub fn allocate(memory: &mut LinearMemory, len: usize) -> (address: Option<u32>)
    requires
        old(memory)@.wf(),
    ensures
        match allocate_spec(old(memory)@, len as int) {
            Some((start, later)) => address == Some(start) && final(memory)@ == later,
            None => address is None && final(memory)@ == old(memory)@,
        },
        final(memory)@.wf(),
{
    let size: usize = if len < 1 {
        1
    } else {
        len
    };
    if size > MAX_ALLOCATION as usize {
        return None;
    }
    memory.allocate(size as u32, ALIGN)
}

/// Allocate `bytes.len()` bytes, copy `bytes` in, and return the address.
pub fn alloc_bytes(memory: &mut LinearMemory, bytes: &[u8]) -> (address: Option<u32>)
    requires
        old(memory)@.wf(),
    ensures
        match alloc_bytes_spec(old(memory)@, bytes@) {
            Some((start, later)) => address == Some(start) && final(memory)@ == later,
            None => address is None && final(memory)@ == old(memory)@,
        },
        final(memory)@.wf(),
{
    proof {
        reveal(alloc_bytes_spec);
        lemma_alloc_bytes(memory@, bytes@);
        memory@.lemma_allocate(allocation_size(bytes@.len() as int), ALIGN as int);
    }
    match allocate(memory, bytes.len()) {
        Some(address) => {
            memory.store(address, bytes);
            Some(address)
        },
        None => None,
    }
}

/// Bytes are stored exactly if there is room for them, at least one byte, from the next multiple of
/// eight on: in the address space, in the limit of the memory and in what one allocation may take.
pub proof fn law_bytes_fit(memory: Memory, bytes: Seq<u8>, start: int)
    requires
        memory.wf(),
        memory.used() <= start < memory.used() + 8,
        start % 8 == 0,
    ensures
        ({
            let size: int = if bytes.len() == 0 {
                1
            } else {
                bytes.len() as int
            };
            &&& alloc_bytes_spec(memory, bytes) is Some <==> size <= 2147483640 && memory.used() + 7
                <= u32::MAX && start + size <= u32::MAX && start + size <= memory.max_pages * 65536
            &&& alloc_bytes_spec(memory, bytes) matches Some((address, later)) ==> {
                &&& address == start
                &&& later.used() == start + size
                &&& later.load(start, bytes.len() as int) == bytes
            }
        }),
{
    reveal(alloc_bytes_spec);
    crate::runtime::law_allocation_fits(
        memory,
        allocation_size(bytes.len() as int),
        8,
        start,
    );
    lemma_alloc_bytes(memory, bytes);
}

} // verus!
