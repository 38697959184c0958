//! Memory interfaces for restoring heap dumps onto a target, and the bump
//! allocation arena that places metadata in target memory.
//!
//! Pointers in a heap dump live in the host address space.  When a heap is
//! restored, a memory interface decides where in the memory model each
//! host-addressed word is stored, and how a host pointer value is written
//! so that the target sees it.
use vstd::prelude::*;
use crate::target_memory::TargetMemory;

verus! {

/// How host addresses map to target addresses and to the memory that
/// backs the target.
pub trait MemoryInterface {
    /// Whether `host` lies in memory known to the interface.
    spec fn translatable(&self, host: u64) -> bool;

    /// The target address of host address `host`.
    spec fn target_address(&self, host: u64) -> u64;

    /// The address, in the memory model, of the word that holds host address `host`.
    spec fn backing_address(&self, host: u64) -> u64;

    /// Writes host pointer `src_host` to the word at host address
    /// `dst_host`, translated for the target; null stays null.
    fn write_pointer_to_target(&self, mem: &mut TargetMemory, dst_host: u64, src_host: u64)
        requires
            self.translatable(dst_host),
            src_host == 0 || self.translatable(src_host),
        ensures
            final(mem)@ == old(mem)@.insert(
                self.backing_address(dst_host),
                if src_host == 0 { 0 } else { self.target_address(src_host) },
            ),
    ;

    /// Writes plain value `src` to the word at host address `dst_host`.
    fn write_value_to_target(&self, mem: &mut TargetMemory, dst_host: u64, src: u64)
        requires
            self.translatable(dst_host),
        ensures
            final(mem)@ == old(mem)@.insert(self.backing_address(dst_host), src),
    ;

    /// The target address of host address `ptr_host`.
    fn translate_host_to_target(&self, ptr_host: u64) -> (r: u64)
        requires
            self.translatable(ptr_host),
        ensures
            r == self.target_address(ptr_host),
    ;
}

/// The memory interface for when the host and the target address spaces are
/// the same.
pub struct NoOpMemoryInterface {}

impl NoOpMemoryInterface {
    /// The identity interface.
    pub fn new() -> (r: Self) {
        NoOpMemoryInterface {}
    }
}

impl Default for NoOpMemoryInterface {
    fn default() -> (r: Self) {
        Self::new()
    }
}

impl MemoryInterface for NoOpMemoryInterface {
    open spec fn translatable(&self, host: u64) -> bool {
        true
    }

    open spec fn target_address(&self, host: u64) -> u64 {
        host
    }

    open spec fn backing_address(&self, host: u64) -> u64 {
        host
    }

    fn write_pointer_to_target(&self, mem: &mut TargetMemory, dst_host: u64, src_host: u64) {
        mem.store(dst_host, src_host);
    }

    fn write_value_to_target(&self, mem: &mut TargetMemory, dst_host: u64, src: u64) {
        mem.store(dst_host, src);
    }

    fn translate_host_to_target(&self, ptr_host: u64) -> (r: u64) {
        ptr_host
    }
}

/// The least multiple of `align` that is at least `x`.
pub open spec fn align_up_spec(x: int, align: int) -> int {
    (x + align - 1) / align * align
}

proof fn lemma_align_up(x: int, align: int)
    by (nonlinear_arith)
    requires
        x >= 0,
        align > 0,
    ensures
        align_up_spec(x, align) % align == 0,
        x <= align_up_spec(x, align) < x + align,
{
    let q = (x + align - 1) / align;
    let r = (x + align - 1) % align;
    assert(x + align - 1 == q * align + r);
    assert((q * align) % align == 0) by {
        vstd::arithmetic::div_mod::lemma_mod_multiples_basic(q, align);
    }
}

/// Rounding up adds less than one step.
pub proof fn lemma_align_up_bound(x: int, align: int)
    requires
        x >= 0,
        align > 0,
    ensures
        x <= align_up_spec(x, align) < x + align,
{
    lemma_align_up(x, align);
}

/// Rounds `x` up to a multiple of `align`.
pub fn align_up(x: usize, align: usize) -> (r: usize)
    requires
        align > 0,
        x + align - 1 <= usize::MAX,
    ensures
        r == align_up_spec(x as int, align as int),
        r % align == 0,
        x <= r < x + align,
{
    proof {
        lemma_align_up(x as int, align as int);
    }
    let q = (x + (align - 1)) / align;
    assert(q * align <= x + align - 1) by (nonlinear_arith)
        requires
            q as int == (x + align - 1) as int / align as int,
            align > 0,
    ;
    q * align
}

/// A multiple of `a` that is at least `s` is at least `s` rounded up to a
/// multiple of `a`, and the rest is again a multiple of `a`.
proof fn lemma_aligned_room(s: int, room: int, a: int)
    requires
        a > 0,
        0 <= s <= room,
        room % a == 0,
    ensures
        align_up_spec(s, a) <= room,
        (room - align_up_spec(s, a)) % a == 0,
{
    lemma_align_up(s, a);
    let u = align_up_spec(s, a);
    lemma_sub_multiples(room, u, a);
    if u > room {
        lemma_sub_multiples(u, room, a);
        vstd::arithmetic::div_mod::lemma_fundamental_div_mod(u - room, a);
        let k = (u - room) / a;
        assert(u - room == a * k);
        assert(k >= 1) by (nonlinear_arith)
            requires
                u - room == a * k,
                u - room > 0,
                a > 0,
        ;
        assert(a * k >= a) by (nonlinear_arith)
            requires
                k >= 1,
                a > 0,
        ;
        assert(false);
    }
}

/// The difference of two multiples of `a` is a multiple of `a`.
proof fn lemma_sub_multiples(x: int, y: int, a: int)
    requires
        a > 0,
        x % a == 0,
        y % a == 0,
    ensures
        (x - y) % a == 0,
{
    vstd::arithmetic::div_mod::lemma_sub_mod_noop(x, y, a);
    lemma_zero_mod(a);
}

proof fn lemma_zero_mod(a: int)
    by (nonlinear_arith)
    requires
        a > 0,
    ensures
        0int % a == 0,
{
}

/// A bump allocator over a region of target-backing memory that also knows
/// the host address of each allocation.
pub struct BumpAllocationArena {
    backing_mem_base: u64,
    backing_mem_cursor: u64,
    backing_mem_limit: u64,
    host_mem_base: u64,
    align: usize,
}

impl BumpAllocationArena {
    #[verifier::type_invariant]
    closed spec fn inv(self) -> bool {
        &&& self.align > 0
        &&& self.backing_mem_base <= self.backing_mem_cursor <= self.backing_mem_limit
        &&& (self.backing_mem_cursor - self.backing_mem_base) % (self.align as int) == 0
        &&& (self.backing_mem_limit - self.backing_mem_base) % (self.align as int) == 0
        &&& self.host_mem_base + (self.backing_mem_limit - self.backing_mem_base) <= u64::MAX
    }

    /// Start of the backing region.
    pub closed spec fn base(self) -> u64 {
        self.backing_mem_base
    }

    /// Next free backing address.
    pub closed spec fn cursor(self) -> u64 {
        self.backing_mem_cursor
    }

    /// End of the backing region.
    pub closed spec fn limit(self) -> u64 {
        self.backing_mem_limit
    }

    /// Host address that corresponds to the start of the backing region.
    pub closed spec fn host_base(self) -> u64 {
        self.host_mem_base
    }

    /// Alignment of every allocation.
    pub closed spec fn alignment(self) -> usize {
        self.align
    }

    /// An empty arena over `size` bytes at `backing_mem_base`, whose first
    /// byte is at `host_mem_base` for the host.
    pub fn new(backing_mem_base: u64, host_mem_base: u64, size: usize, align: usize) -> (r: Self)
        requires
            align > 0,
            backing_mem_base % (align as u64) == 0,
            size % align == 0,
            backing_mem_base + size <= u64::MAX,
            host_mem_base + size <= u64::MAX,
        ensures
            r.base() == backing_mem_base,
            r.cursor() == backing_mem_base,
            r.limit() == backing_mem_base + size,
            r.host_base() == host_mem_base,
            r.alignment() == align,
    {
        assert((size as int) % (align as int) == 0);
        assert(0int % (align as int) == 0);
        BumpAllocationArena {
            backing_mem_base,
            backing_mem_cursor: backing_mem_base,
            backing_mem_limit: backing_mem_base + size as u64,
            host_mem_base,
            align,
        }
    }

    /// Allocates `size` bytes: returns the backing address and the host
    /// address of the allocation, and moves the cursor past it, rounded up
    /// to the alignment.
    pub fn allocate(&mut self, size: usize) -> (r: (u64, u64))
        requires
            old(self).cursor() + size <= old(self).limit(),
            size + old(self).alignment() - 1 <= usize::MAX,
        ensures
            r.0 == old(self).cursor(),
            r.1 == old(self).host_base() + (old(self).cursor() - old(self).base()),
            r.1 + size <= u64::MAX,
            r.1 >= old(self).host_base(),
            old(self).alignment() > 0,
            final(self).cursor() == old(self).cursor() + align_up_spec(size as int, old(self).alignment() as int),
            final(self).cursor() <= final(self).limit(),
            final(self).base() == old(self).base(),
            final(self).limit() == old(self).limit(),
            final(self).host_base() == old(self).host_base(),
            final(self).alignment() == old(self).alignment(),
    {
        proof {
            use_type_invariant(&*self);
        }
        let backing_ret = self.backing_mem_cursor;
        let a = self.align;
        proof {
            lemma_sub_multiples(
                (self.backing_mem_limit - self.backing_mem_base) as int,
                (self.backing_mem_cursor - self.backing_mem_base) as int,
                a as int,
            );
            lemma_aligned_room(
                size as int,
                (self.backing_mem_limit - self.backing_mem_cursor) as int,
                a as int,
            );
            lemma_align_up(size as int, a as int);
            assert(((self.backing_mem_cursor - self.backing_mem_base) + align_up_spec(size as int, a as int))
                % (a as int) == 0) by {
                vstd::arithmetic::div_mod::lemma_add_mod_noop(
                    (self.backing_mem_cursor - self.backing_mem_base) as int,
                    align_up_spec(size as int, a as int),
                    a as int,
                );
                lemma_zero_mod(a as int);
            }
        }
        let step = align_up(size, a) as u64;
        self.backing_mem_cursor = self.backing_mem_cursor + step;
        let host = self.host_mem_base + (backing_ret - self.backing_mem_base);
        (backing_ret, host)
    }
}

} // verus!
