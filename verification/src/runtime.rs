//! The guest's linear memory and the grow-only bump allocator over it.
//!
//! The allocator never frees: a kernel instance decodes exactly once and its whole linear memory
//! is dropped afterwards. Allocation starts at the heap base (after static data and the shadow
//! stack) and grows the memory on demand, a page at a time, up to the limit the host set.

use vstd::prelude::*;

verus! {

/// Size of one page of linear memory.
pub const PAGE: u32 = 65536;

/// The largest number of pages a memory may be limited to, so that its size in bytes is an `u32`.
pub const MAX_PAGES: u32 = 65535;

/// The smallest multiple of `align` that is not below `address`.
pub open spec fn round_up(address: int, align: int) -> int {
    let v = address + (align - 1);
    v - v % align
}

/// The number of pages that hold `bytes` bytes.
pub open spec fn pages_for(bytes: int) -> int {
    (bytes + (PAGE - 1)) / (PAGE as int)
}

/// `round_up` is aligned and lies within one alignment of the address.
pub proof fn lemma_round_up(address: int, align: int)
    requires
        0 <= address,
        0 < align,
    ensures
        address <= round_up(address, align) < address + align,
        round_up(address, align) % align == 0,
{
    let v = address + (align - 1);
    vstd::arithmetic::div_mod::lemma_fundamental_div_mod(v, align);
    vstd::arithmetic::div_mod::lemma_mod_multiples_basic(v / align, align);
    vstd::arithmetic::mul::lemma_mul_is_commutative(align, v / align);
    assert(0 <= v % align < align) by (nonlinear_arith)
        requires
            0 < align,
    ;
}

/// The state of a linear memory.
#[verifier::ext_equal]
pub struct Memory {
    /// Every addressable byte.
    pub bytes: Seq<u8>,
    /// Next free address; 0 before the first allocation.
    pub next: int,
    /// The address of the first allocation.
    pub heap_base: int,
    /// The number of pages the memory may grow to.
    pub max_pages: int,
}

impl Memory {
    /// The address below which everything is already in use.
    pub open spec fn used(self) -> int {
        if self.next == 0 {
            self.heap_base
        } else {
            self.next
        }
    }

    /// A whole number of pages within the limit, which hold every allocation.
    pub open spec fn wf(self) -> bool {
        &&& 0 <= self.next <= self.bytes.len()
        &&& 0 < self.heap_base <= u32::MAX
        &&& 0 <= self.max_pages <= MAX_PAGES
        &&& self.bytes.len() % (PAGE as nat) == 0
        &&& self.bytes.len() <= self.max_pages * PAGE
        &&& self.next == 0 || self.heap_base <= self.next
    }

    /// The pages needed beyond the present ones for `end` bytes.
    pub open spec fn missing_pages(self, end: int) -> int {
        if end > self.bytes.len() {
            pages_for(end - self.bytes.len())
        } else {
            0
        }
    }

    /// The memory grown by `pages` zeroed pages.
    pub open spec fn grown(self, pages: int) -> Memory {
        Memory {
            bytes: self.bytes + Seq::new((pages * PAGE) as nat, |i: int| 0u8),
            ..self
        }
    }

    /// The outcome of allocating `size` bytes at a multiple of `align`: the address and the new
    /// state, or `None` when the request passes the end of the address space or of the limit.
    pub open spec fn allocate(self, size: int, align: int) -> Option<(u32, Memory)> {
        let start = round_up(self.used(), align);
        let end = start + size;
        if self.used() + (align - 1) > u32::MAX || end > u32::MAX || self.bytes.len()
            + self.missing_pages(end) * PAGE > self.max_pages * PAGE {
            None
        } else {
            Some(
                (
                    start as u32,
                    Memory { next: end, ..self.grown(self.missing_pages(end)) },
                ),
            )
        }
    }

    /// The memory with `bytes` stored at `address`.
    pub open spec fn store(self, address: int, bytes: Seq<u8>) -> Memory {
        Memory {
            bytes: Seq::new(
                self.bytes.len(),
                |i: int|
                    if address <= i < address + bytes.len() {
                        bytes[i - address]
                    } else {
                        self.bytes[i]
                    },
            ),
            ..self
        }
    }

    /// The `len` bytes at `address`.
    pub open spec fn load(self, address: int, len: int) -> Seq<u8> {
        self.bytes.subrange(address, address + len)
    }

    /// Whether `len` bytes at `address` are inside the memory.
    pub open spec fn holds(self, address: int, len: int) -> bool {
        0 <= address && 0 <= len && address + len <= self.bytes.len()
    }

    /// Whether every allocated byte of `self` is still there in `later`.
    pub open spec fn kept_in(self, later: Memory) -> bool {
        &&& self.used() <= later.used()
        &&& self.bytes.len() <= later.bytes.len()
        &&& self.next != 0 ==> later.next != 0
        &&& forall|i: int|
            0 <= i < self.used() && i < self.bytes.len() ==> #[trigger] later.bytes[i]
                == self.bytes[i]
    }

    /// An allocation lies beyond everything allocated before, inside the grown memory, and keeps
    /// what the memory held.
    pub proof fn lemma_allocate(self, size: int, align: int)
        requires
            self.wf(),
            0 < size,
            0 < align,
        ensures
            self.allocate(size, align) matches Some((address, later)) ==> {
                &&& later.wf()
                &&& address == round_up(self.used(), align)
                &&& self.used() <= address
                &&& 0 < address
                &&& address as int % align == 0
                &&& later.used() == address + size
                &&& later.next == address + size
                &&& later.holds(address as int, size)
                &&& self.bytes.len() <= later.bytes.len()
                &&& later.bytes.subrange(0, self.bytes.len() as int) == self.bytes
                &&& self.kept_in(later)
            },
    {
        lemma_round_up(self.used(), align);
        let end = round_up(self.used(), align) + size;
        let pages = self.missing_pages(end);
        assert(0 <= pages && end <= self.bytes.len() + pages * PAGE);
        if let Some((address, later)) = self.allocate(size, align) {
            assert(later.bytes.subrange(0, self.bytes.len() as int) =~= self.bytes);
            assert(forall|i: int|
                0 <= i < self.bytes.len() ==> #[trigger] later.bytes[i] == self.bytes[i]);
        }
    }
}

/// A guest's linear memory.
pub struct LinearMemory {
    /// Every addressable byte.
    pub bytes: Vec<u8>,
    /// Next free address; 0 means that nothing was allocated yet.
    pub next: u32,
    /// The address of the first allocation.
    pub heap_base: u32,
    /// The number of pages the host lets the memory grow to.
    pub max_pages: u32,
}

impl View for LinearMemory {
    type V = Memory;

    open spec fn view(&self) -> Memory {
        Memory {
            bytes: self.bytes@,
            next: self.next as int,
            heap_base: self.heap_base as int,
            max_pages: self.max_pages as int,
        }
    }
}

impl LinearMemory {
    /// A memory of no pages yet, whose heap starts at `heap_base`.
    pub fn new(heap_base: u32, max_pages: u32) -> (memory: Self)
        requires
            0 < heap_base,
            max_pages <= MAX_PAGES,
        ensures
            memory@ == (Memory {
                bytes: Seq::empty(),
                next: 0,
                heap_base: heap_base as int,
                max_pages: max_pages as int,
            }),
            memory@.wf(),
    {
        let memory = LinearMemory { bytes: Vec::new(), next: 0, heap_base, max_pages };
        assert(memory@.bytes =~= Seq::empty());
        memory
    }

    /// Allocate `size` bytes at a multiple of `align`, growing the memory as needed.
    ///
    /// `None` is where the allocator answers with the null pointer: the request does not fit the
    /// address space, or the memory may not grow that far. The memory is then unchanged.
    pub fn allocate(&mut self, size: u32, align: u32) -> (address: Option<u32>)
        requires
            old(self)@.wf(),
            0 < size,
            0 < align,
        ensures
            match old(self)@.allocate(size as int, align as int) {
                Some((start, later)) => address == Some(start) && final(self)@ == later,
                None => address is None && final(self)@ == old(self)@,
            },
            final(self)@.wf(),
    {
        let next: u32 = if self.next == 0 {
            self.heap_base
        } else {
            self.next
        };
        let start: u32 = match next.checked_add(align - 1) {
            Some(v) => v - v % align,
            None => {
                return None;
            },
        };
        proof {
            self@.lemma_allocate(size as int, align as int);
        }
        let end: u32 = match start.checked_add(size) {
            Some(end) => end,
            None => {
                return None;
            },
        };
        let have: usize = self.bytes.len();
        if end as usize > have {
            let missing: u32 = end - have as u32;
            let delta: u32 = missing / PAGE + if missing % PAGE == 0 { 0 } else { 1 };
            assert(delta == self@.missing_pages(end as int));
            if have as u64 + delta as u64 * PAGE as u64 > self.max_pages as u64 * PAGE as u64 {
                return None;
            }
            assert(have + delta * PAGE <= u32::MAX) by {
                assert(self.max_pages * PAGE <= MAX_PAGES * PAGE);
            }
            let grown: usize = have + delta as usize * PAGE as usize;
            self.bytes.resize(grown, 0u8);
            proof {
                let old_bytes = old(self)@.bytes;
                assert forall|i: int| 0 <= i < old_bytes.len() implies self.bytes@[i]
                    == old_bytes[i] by {
                    assert(self.bytes@.subrange(0, old_bytes.len() as int)[i] == old_bytes[i]);
                }
                assert(self.bytes@ =~= old(self)@.grown(delta as int).bytes);
            }
        } else {
            assert(old(self)@.missing_pages(end as int) == 0);
            assert(old(self)@.grown(0).bytes =~= self.bytes@);
        }
        self.next = end;
        Some(start)
    }

    /// Store `bytes` at `address`.
    pub fn store(&mut self, address: u32, bytes: &[u8])
        requires
            old(self)@.holds(address as int, bytes@.len() as int),
        ensures
            final(self)@ == old(self)@.store(address as int, bytes@),
    {
        let mut i: usize = 0;
        while i < bytes.len()
            invariant
                i <= bytes@.len(),
                old(self)@.holds(address as int, bytes@.len() as int),
                self.next == old(self).next,
                self.heap_base == old(self).heap_base,
                self.max_pages == old(self).max_pages,
                self.bytes@.len() == old(self).bytes@.len(),
                self.bytes@ == old(self)@.store(address as int, bytes@.take(i as int)).bytes,
            decreases bytes@.len() - i,
        {
            assert(self.bytes.len() <= usize::MAX);
            self.bytes.set(address as usize + i, bytes[i]);
            i = i + 1;
            assert(self.bytes@ =~= old(self)@.store(
                address as int,
                bytes@.take(i as int),
            ).bytes);
        }
        assert(bytes@.take(i as int) =~= bytes@);
    }

    /// The `len` bytes at `address`, if they are inside the memory.
    pub fn load(&self, address: u32, len: usize) -> (bytes: Option<&[u8]>)
        ensures
            match bytes {
                Some(found) => self@.holds(address as int, len as int) && found@ == self@.load(
                    address as int,
                    len as int,
                ),
                None => !self@.holds(address as int, len as int),
            },
    {
        let size: usize = self.bytes.len();
        if address as usize > size || len > size - address as usize {
            return None;
        }
        let start: usize = address as usize;
        Some(vstd::slice::slice_subrange(self.bytes.as_slice(), start, start + len))
    }
}

/// An allocation succeeds exactly if its end, from the next multiple of the alignment on, is within
/// the address space and the limit. The memory then grows by whole zeroed pages, and by no more than
/// it needs.
pub proof fn law_allocation_fits(memory: Memory, size: int, align: int, start: int)
    requires
        memory.wf(),
        0 < size,
        0 < align,
        memory.used() <= start < memory.used() + align,
        start % align == 0,
    ensures
        memory.allocate(size, align) is Some <==> memory.used() + align - 1 <= u32::MAX && start
            + size <= u32::MAX && start + size <= memory.max_pages * 65536,
        memory.allocate(size, align) matches Some((address, later)) ==> {
            &&& address == start
            &&& later.bytes.len() % 65536 == 0
            &&& start + size <= later.bytes.len()
            &&& later.bytes.len() == memory.bytes.len() || later.bytes.len() < start + size + 65536
            &&& forall|i: int|
                memory.bytes.len() <= i < later.bytes.len() ==> #[trigger] later.bytes[i] == 0
            &&& forall|i: int|
                0 <= i < memory.bytes.len() ==> #[trigger] later.bytes[i] == memory.bytes[i]
        },
{
    let other = round_up(memory.used(), align);
    lemma_round_up(memory.used(), align);
    lemma_same_multiple(start, other, align);
}

/// Multiples of a number that are closer than it are equal.
proof fn lemma_same_multiple(a: int, b: int, align: int)
    requires
        0 < align,
        a % align == 0,
        b % align == 0,
        -align < a - b < align,
    ensures
        a == b,
{
    vstd::arithmetic::div_mod::lemma_fundamental_div_mod(a, align);
    vstd::arithmetic::div_mod::lemma_fundamental_div_mod(b, align);
    let (m, n) = (a / align, b / align);
    assert(m == n) by (nonlinear_arith)
        requires
            a == align * m,
            b == align * n,
            -align < a - b < align,
            0 < align,
    ;
}

} // verus!
