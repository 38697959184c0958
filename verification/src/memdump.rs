//! Memory dumps for devices with physical memory only.
//!
//! A dump manages a region of memory that backs the device (target) address
//! space, hands out mappings of host address ranges into it, and translates
//! host addresses to target and backing addresses.
use vstd::prelude::*;
use crate::memif::{align_up, align_up_spec, BumpAllocationArena, MemoryInterface};
use crate::target_memory::TargetMemory;

verus! {

broadcast use vstd::seq_lib::group_to_multiset_ensures;

/// Mappings are rounded up to pages of this size in the backing memory.
pub const MAPPING_PAGE_SIZE: usize = 4096;

/// A host address range and where it lives in backing and target memory.
#[derive(Debug, Clone, Copy, PartialEq, Eq, Structural)]
pub struct MemdumpPhysicalMapping {
    pub backing_memory_start: u64,
    pub target_memory_start: u64,
    pub host_memory_start: u64,
    pub size: usize,
}

impl MemdumpPhysicalMapping {
    /// A mapping of `size` host bytes at `host_memory_start`.
    pub fn new(
        backing_memory_start: u64,
        target_memory_start: u64,
        host_memory_start: u64,
        size: usize,
    ) -> (r: Self)
        ensures
            r == (MemdumpPhysicalMapping {
                backing_memory_start,
                target_memory_start,
                host_memory_start,
                size,
            }),
    {
        MemdumpPhysicalMapping { backing_memory_start, target_memory_start, host_memory_start, size }
    }

    /// An allocation arena over the backing memory of this mapping.
    pub fn to_arena(&self, align: usize) -> (r: BumpAllocationArena)
        requires
            align > 0,
            self.backing_memory_start % (align as u64) == 0,
            self.size % align == 0,
            self.backing_memory_start + self.size <= u64::MAX,
            self.host_memory_start + self.size <= u64::MAX,
        ensures
            r.base() == self.backing_memory_start,
            r.cursor() == self.backing_memory_start,
            r.limit() == self.backing_memory_start + self.size,
            r.host_base() == self.host_memory_start,
            r.alignment() == align,
    {
        BumpAllocationArena::new(self.backing_memory_start, self.host_memory_start, self.size, align)
    }
}

/// Host start addresses strictly increase along `ms`.
pub open spec fn strictly_sorted(ms: Seq<MemdumpPhysicalMapping>) -> bool {
    forall|p: int, q: int|
        0 <= p < q < ms.len() ==> #[trigger] ms[p].host_memory_start < #[trigger] ms[q].host_memory_start
}

/// Host start addresses do not decrease along `ms`.
pub open spec fn sorted_by_host(ms: Seq<MemdumpPhysicalMapping>) -> bool {
    forall|p: int, q: int|
        0 <= p < q < ms.len() ==> #[trigger] ms[p].host_memory_start <= #[trigger] ms[q].host_memory_start
}

/// The backing and target ranges of `m` fit in the address space.
pub open spec fn mapping_fits(m: MemdumpPhysicalMapping) -> bool {
    m.backing_memory_start + m.size <= u64::MAX && m.target_memory_start + m.size <= u64::MAX
}

/// Backing and target ranges of every mapping fit in the address space.
pub open spec fn ranges_fit(ms: Seq<MemdumpPhysicalMapping>) -> bool {
    forall|i: int| 0 <= i < ms.len() ==> mapping_fits(#[trigger] ms[i])
}

/// Mapping `i` is the last one that starts at or below `a`, and `a` is its
/// start or lies inside it.
pub open spec fn covers(ms: Seq<MemdumpPhysicalMapping>, i: int, a: u64) -> bool {
    &&& 0 <= i < ms.len()
    &&& ms[i].host_memory_start <= a
    &&& (i + 1 < ms.len() ==> a < ms[i + 1].host_memory_start)
    &&& (a == ms[i].host_memory_start || a - ms[i].host_memory_start < ms[i].size)
}

/// The mapping that holds `a`.
pub open spec fn covering_index(ms: Seq<MemdumpPhysicalMapping>, a: u64) -> int {
    choose|i: int| covers(ms, i, a)
}

/// Translates `a` through the mapping that holds it, with `key` picking the
/// start of the translated range.
pub open spec fn translate_spec(
    ms: Seq<MemdumpPhysicalMapping>,
    a: u64,
    key: spec_fn(MemdumpPhysicalMapping) -> u64,
) -> u64 {
    let m = ms[covering_index(ms, a)];
    (key(m) + (a - m.host_memory_start)) as u64
}

/// The backing start of a mapping.
pub open spec fn backing_key() -> spec_fn(MemdumpPhysicalMapping) -> u64 {
    |m: MemdumpPhysicalMapping| m.backing_memory_start
}

/// The target start of a mapping.
pub open spec fn target_key() -> spec_fn(MemdumpPhysicalMapping) -> u64 {
    |m: MemdumpPhysicalMapping| m.target_memory_start
}

/// In strictly sorted mappings at most one mapping covers an address.
pub proof fn lemma_covering_unique(ms: Seq<MemdumpPhysicalMapping>, i: int, j: int, a: u64)
    requires
        strictly_sorted(ms),
        covers(ms, i, a),
        covers(ms, j, a),
    ensures
        i == j,
{
    if i < j {
        assert(ms[i + 1].host_memory_start <= ms[j].host_memory_start);
    }
    if j < i {
        assert(ms[j + 1].host_memory_start <= ms[i].host_memory_start);
    }
}

/// Translates host addresses through mappings sorted by their host start.
pub struct MemdumpPhysicalMemoryInterface {
    sorted_mappings: Vec<MemdumpPhysicalMapping>,
}

impl MemdumpPhysicalMemoryInterface {
    #[verifier::type_invariant]
    closed spec fn inv(self) -> bool {
        &&& strictly_sorted(self.sorted_mappings@)
        &&& ranges_fit(self.sorted_mappings@)
    }

    /// The mappings, in host order.
    pub closed spec fn mappings(&self) -> Seq<MemdumpPhysicalMapping> {
        self.sorted_mappings@
    }

    /// An interface over `sorted_mappings`, which must be in increasing order
    /// of host start; `None` where they are not, or a range does not fit.
    pub fn new(sorted_mappings: Vec<MemdumpPhysicalMapping>) -> (r: Option<Self>)
        ensures
            r is Some <==> strictly_sorted(sorted_mappings@) && ranges_fit(sorted_mappings@),
            r matches Some(m) ==> m.mappings() == sorted_mappings@,
    {
        let n = sorted_mappings.len();
        let mut i: usize = 0;
        while i < n
            invariant
                n == sorted_mappings@.len(),
                i <= n,
                forall|p: int, q: int|
                    0 <= p < q < i ==> #[trigger] sorted_mappings@[p].host_memory_start
                        < #[trigger] sorted_mappings@[q].host_memory_start,
                forall|k: int| 0 <= k < i ==> mapping_fits(#[trigger] sorted_mappings@[k]),
            decreases n - i,
        {
            let m = sorted_mappings[i];
            if m.backing_memory_start > u64::MAX - m.size as u64 || m.target_memory_start > u64::MAX
                - m.size as u64 {
                assert(!ranges_fit(sorted_mappings@)) by {
                    assert(sorted_mappings@[i as int] == m);
                }
                return None;
            }
            if i > 0 && sorted_mappings[i - 1].host_memory_start >= m.host_memory_start {
                assert(!strictly_sorted(sorted_mappings@)) by {
                    assert(sorted_mappings@[i - 1].host_memory_start >= sorted_mappings@[i as int].host_memory_start);
                }
                return None;
            }
            proof {
                assert forall|p: int, q: int|
                    0 <= p < q < i + 1 implies #[trigger] sorted_mappings@[p].host_memory_start
                        < #[trigger] sorted_mappings@[q].host_memory_start by {
                    if q == i && p < i - 1 {
                        assert(sorted_mappings@[p].host_memory_start < sorted_mappings@[i - 1].host_memory_start);
                    }
                }
            }
            i += 1;
        }
        Some(MemdumpPhysicalMemoryInterface { sorted_mappings })
    }

    /// The index of the mapping that holds `a`.
    fn find(&self, a: u64) -> (r: usize)
        requires
            exists|i: int| covers(self.mappings(), i, a),
        ensures
            covers(self.mappings(), r as int, a),
            r as int == covering_index(self.mappings(), a),
    {
        proof {
            use_type_invariant(self);
        }
        let ghost ms = self.sorted_mappings@;
        let ghost w = choose|i: int| covers(ms, i, a);
        let mut lo: usize = 0;
        let mut hi: usize = self.sorted_mappings.len();
        while lo + 1 < hi
            invariant
                ms == self.sorted_mappings@,
                strictly_sorted(ms),
                covers(ms, w, a),
                0 <= lo < hi <= ms.len(),
                lo <= w < hi,
            decreases hi - lo,
        {
            let mid = lo + (hi - lo) / 2;
            if self.sorted_mappings[mid].host_memory_start <= a {
                proof {
                    if w < mid {
                        assert(ms[w + 1].host_memory_start <= ms[mid as int].host_memory_start);
                    }
                }
                lo = mid;
            } else {
                hi = mid;
            }
        }
        proof {
            let c = covering_index(ms, a);
            lemma_covering_unique(ms, c, w, a);
        }
        lo
    }

    /// Translates `ptr_host` through the mapping that holds it, to the
    /// backing memory.
    pub fn translate_to_backing(&self, ptr_host: u64) -> (r: u64)
        requires
            exists|i: int| covers(self.mappings(), i, ptr_host),
        ensures
            r == translate_spec(self.mappings(), ptr_host, backing_key()),
    {
        proof {
            use_type_invariant(self);
        }
        let i = self.find(ptr_host);
        let m = self.sorted_mappings[i];
        proof {
            assert(ranges_fit(self.sorted_mappings@));
            assert(self.sorted_mappings@[i as int] == m);
        }
        m.backing_memory_start + (ptr_host - m.host_memory_start)
    }

    /// Translates `ptr_host` through the mapping that holds it, to the
    /// target address space.
    pub fn translate_to_target(&self, ptr_host: u64) -> (r: u64)
        requires
            exists|i: int| covers(self.mappings(), i, ptr_host),
        ensures
            r == translate_spec(self.mappings(), ptr_host, target_key()),
    {
        proof {
            use_type_invariant(self);
        }
        let i = self.find(ptr_host);
        let m = self.sorted_mappings[i];
        proof {
            assert(ranges_fit(self.sorted_mappings@));
            assert(self.sorted_mappings@[i as int] == m);
        }
        assert(mapping_fits(m));
        m.target_memory_start + (ptr_host - m.host_memory_start)
    }
}

impl MemoryInterface for MemdumpPhysicalMemoryInterface {
    open spec fn translatable(&self, host: u64) -> bool {
        exists|i: int| covers(self.mappings(), i, host)
    }

    open spec fn target_address(&self, host: u64) -> u64 {
        translate_spec(self.mappings(), host, target_key())
    }

    open spec fn backing_address(&self, host: u64) -> u64 {
        translate_spec(self.mappings(), host, backing_key())
    }

    fn write_pointer_to_target(&self, mem: &mut TargetMemory, dst_host: u64, src_host: u64) {
        let dst_backing = self.translate_to_backing(dst_host);
        let src_target = if src_host == 0 {
            0
        } else {
            self.translate_to_target(src_host)
        };
        mem.store(dst_backing, src_target);
    }

    fn write_value_to_target(&self, mem: &mut TargetMemory, dst_host: u64, src: u64) {
        let dst_backing = self.translate_to_backing(dst_host);
        mem.store(dst_backing, src);
    }

    fn translate_host_to_target(&self, ptr_host: u64) -> (r: u64) {
        self.translate_to_target(ptr_host)
    }
}

/// A region of memory that backs the target address space, and the mappings
/// of host ranges handed out from it.
pub struct MemdumpPhysical {
    backing_memory: u64,
    backing_memory_size: usize,
    backing_memory_cursor: u64,
    target_memory_base: u64,
    mappings: Vec<MemdumpPhysicalMapping>,
}

impl MemdumpPhysical {
    #[verifier::type_invariant]
    closed spec fn inv(self) -> bool {
        &&& self.backing_memory <= self.backing_memory_cursor <= self.backing_memory
            + self.backing_memory_size
        &&& self.backing_memory + self.backing_memory_size <= u64::MAX
        &&& self.target_memory_base + self.backing_memory_size <= u64::MAX
        &&& forall|i: int|
            0 <= i < self.mappings@.len() ==> {
                let m = #[trigger] self.mappings@[i];
                &&& m.backing_memory_start + m.size <= self.backing_memory_cursor
                &&& m.backing_memory_start >= self.backing_memory
                &&& m.target_memory_start == self.target_memory_base + (m.backing_memory_start
                    - self.backing_memory)
            }
    }

    /// Start of the backing region.
    pub closed spec fn backing_base(&self) -> u64 {
        self.backing_memory
    }

    /// Size of the backing region.
    pub closed spec fn backing_size(&self) -> usize {
        self.backing_memory_size
    }

    /// First backing address not yet handed out.
    pub closed spec fn cursor(&self) -> u64 {
        self.backing_memory_cursor
    }

    /// Target address of the start of the backing region.
    pub closed spec fn target_base(&self) -> u64 {
        self.target_memory_base
    }

    /// The mappings handed out so far, in order.
    pub closed spec fn mapping_list(&self) -> Seq<MemdumpPhysicalMapping> {
        self.mappings@
    }

    /// A dump over `size` bytes of backing memory at `backing_memory`, whose
    /// first byte is at `target_memory_base` for the target.
    pub fn new(backing_memory: u64, size: usize, target_memory_base: u64) -> (r: Self)
        requires
            size % MAPPING_PAGE_SIZE == 0,
            backing_memory + size <= u64::MAX,
            target_memory_base + size <= u64::MAX,
        ensures
            r.backing_base() == backing_memory,
            r.backing_size() == size,
            r.cursor() == backing_memory,
            r.target_base() == target_memory_base,
            r.mapping_list() == Seq::<MemdumpPhysicalMapping>::empty(),
    {
        MemdumpPhysical {
            backing_memory,
            backing_memory_size: size,
            backing_memory_cursor: backing_memory,
            target_memory_base,
            mappings: Vec::new(),
        }
    }

    /// Hands out the next page-aligned piece of backing memory for `size`
    /// host bytes at `host_memory_start`.
    pub fn new_mapping(&mut self, host_memory_start: u64, size: usize) -> (r: MemdumpPhysicalMapping)
        requires
            host_memory_start != 0,
            size + MAPPING_PAGE_SIZE - 1 <= usize::MAX,
            old(self).cursor() + align_up_spec(size as int, MAPPING_PAGE_SIZE as int) <= old(
                self,
            ).backing_base() + old(self).backing_size(),
        ensures
            r.backing_memory_start == old(self).cursor(),
            r.target_memory_start == old(self).target_base() + (old(self).cursor() - old(
                self,
            ).backing_base()),
            r.host_memory_start == host_memory_start,
            r.size == size,
            final(self).cursor() == old(self).cursor() + align_up_spec(size as int, MAPPING_PAGE_SIZE as int),
            final(self).mapping_list() == old(self).mapping_list().push(r),
            final(self).backing_base() == old(self).backing_base(),
            final(self).backing_size() == old(self).backing_size(),
            final(self).target_base() == old(self).target_base(),
    {
        proof {
            use_type_invariant(&*self);
        }
        let size_aligned = align_up(size, MAPPING_PAGE_SIZE);
        let old_cursor = self.backing_memory_cursor;
        let new_cursor = old_cursor + size_aligned as u64;
        let ret = MemdumpPhysicalMapping {
            backing_memory_start: old_cursor,
            target_memory_start: self.target_memory_base + (old_cursor - self.backing_memory),
            host_memory_start,
            size,
        };
        let mut mappings: Vec<MemdumpPhysicalMapping> = Vec::new();
        std::mem::swap(&mut mappings, &mut self.mappings);
        mappings.push(ret);
        proof {
            assert forall|i: int| 0 <= i < mappings@.len() implies {
                let m = #[trigger] mappings@[i];
                &&& m.backing_memory_start + m.size <= new_cursor
                &&& m.backing_memory_start >= self.backing_memory
                &&& m.target_memory_start == self.target_memory_base + (m.backing_memory_start
                    - self.backing_memory)
            } by {
                if i < mappings@.len() - 1 {
                    assert(mappings@[i] == old(self).mappings@[i]);
                }
            }
        }
        self.backing_memory_cursor = new_cursor;
        self.mappings = mappings;
        ret
    }

    /// The mappings in increasing order of host start, as an interface;
    /// `None` where two mappings start at the same host address.
    pub fn gen_memif(&self) -> (r: Option<MemdumpPhysicalMemoryInterface>)
        ensures
            r is Some <==> (forall|p: int, q: int|
                0 <= p < q < self.mapping_list().len() ==> #[trigger] self.mapping_list()[p].host_memory_start
                    != #[trigger] self.mapping_list()[q].host_memory_start),
            r matches Some(m) ==> m.mappings().to_multiset() == self.mapping_list().to_multiset()
                && strictly_sorted(m.mappings()),
    {
        proof {
            use_type_invariant(self);
        }
        let sorted = sort_by_host(&self.mappings);
        let ghost ms = self.mappings@;
        proof {
            assert forall|i: int| 0 <= i < ms.len() implies mapping_fits(#[trigger] ms[i]) by {
                let m = ms[i];
                assert(m.backing_memory_start + m.size <= self.backing_memory_cursor);
            }
            lemma_fit_preserved(ms, sorted@);
            let perm = choose|perm: Seq<int>| is_index_permutation(ms, sorted@, perm);
            lemma_distinct_iff_strict(ms, sorted@, perm);
            assert(ranges_fit(sorted@));
            assert(ms == self.mapping_list());
        }
        MemdumpPhysicalMemoryInterface::new(sorted)
    }
}

/// Sorting keeps the fit of every range.
proof fn lemma_fit_preserved(a: Seq<MemdumpPhysicalMapping>, b: Seq<MemdumpPhysicalMapping>)
    requires
        ranges_fit(a),
        a.to_multiset() == b.to_multiset(),
    ensures
        ranges_fit(b),
{
    assert forall|i: int| 0 <= i < b.len() implies mapping_fits(#[trigger] b[i]) by {
        assert(b.contains(b[i]));
        assert(b.to_multiset().count(b[i]) > 0);
        assert(a.contains(b[i]));
        let k = choose|k: int| 0 <= k < a.len() && a[k] == b[i];
        assert(a[k] == b[i]);
    }
}

/// Index `t` occurs in `perm`.
pub open spec fn occurs_in(perm: Seq<int>, t: int) -> bool {
    exists|k: int| 0 <= k < perm.len() && #[trigger] perm[k] == t
}

/// `b` lists the elements of `a` in the order given by `perm`, which uses
/// every index of `a` exactly once.
pub open spec fn is_index_permutation<T>(a: Seq<T>, b: Seq<T>, perm: Seq<int>) -> bool {
    &&& perm.len() == b.len()
    &&& a.len() == b.len()
    &&& forall|k: int| 0 <= k < b.len() ==> 0 <= #[trigger] perm[k] < a.len() && b[k] == a[perm[k]]
    &&& forall|k1: int, k2: int| 0 <= k1 < k2 < b.len() ==> #[trigger] perm[k1] != #[trigger] perm[k2]
    &&& forall|t: int| 0 <= t < a.len() ==> #[trigger] occurs_in(perm, t)
}

/// A sorted rearrangement is strictly sorted exactly when the host starts of
/// the original are distinct.
proof fn lemma_distinct_iff_strict(a: Seq<MemdumpPhysicalMapping>, b: Seq<MemdumpPhysicalMapping>, perm: Seq<int>)
    requires
        is_index_permutation(a, b, perm),
        sorted_by_host(b),
    ensures
        strictly_sorted(b) <==> (forall|p: int, q: int|
            0 <= p < q < a.len() ==> #[trigger] a[p].host_memory_start != #[trigger] a[q].host_memory_start),
{
    if strictly_sorted(b) {
        assert forall|p: int, q: int| 0 <= p < q < a.len() implies #[trigger] a[p].host_memory_start
            != #[trigger] a[q].host_memory_start by {
            assert(occurs_in(perm, p));
            assert(occurs_in(perm, q));
            let kp = choose|k: int| 0 <= k < perm.len() && #[trigger] perm[k] == p;
            let kq = choose|k: int| 0 <= k < perm.len() && #[trigger] perm[k] == q;
            assert(b[kp] == a[p]);
            assert(b[kq] == a[q]);
            if kp < kq {
                assert(b[kp].host_memory_start < b[kq].host_memory_start);
            } else {
                assert(kq < kp);
                assert(b[kq].host_memory_start < b[kp].host_memory_start);
            }
        }
    }
    if forall|p: int, q: int|
        0 <= p < q < a.len() ==> #[trigger] a[p].host_memory_start != #[trigger] a[q].host_memory_start {
        assert forall|p: int, q: int| 0 <= p < q < b.len() implies #[trigger] b[p].host_memory_start
            < #[trigger] b[q].host_memory_start by {
            assert(b[p] == a[perm[p]]);
            assert(b[q] == a[perm[q]]);
            assert(perm[p] != perm[q]);
            if perm[p] < perm[q] {
                assert(a[perm[p]].host_memory_start != a[perm[q]].host_memory_start);
            } else {
                assert(a[perm[q]].host_memory_start != a[perm[p]].host_memory_start);
            }
        }
    }
}

/// The mappings sorted by host start (stable insertion).
fn sort_by_host(v: &Vec<MemdumpPhysicalMapping>) -> (r: Vec<MemdumpPhysicalMapping>)
    ensures
        r@.to_multiset() == v@.to_multiset(),
        sorted_by_host(r@),
        exists|perm: Seq<int>| is_index_permutation(v@, r@, perm),
{
    let mut out: Vec<MemdumpPhysicalMapping> = Vec::new();
    let ghost mut perm: Seq<int> = Seq::empty();
    let mut i: usize = 0;
    while i < v.len()
        invariant
            i <= v@.len(),
            out@.to_multiset() == v@.subrange(0, i as int).to_multiset(),
            sorted_by_host(out@),
            perm.len() == out@.len(),
            out@.len() == i,
            forall|k: int| 0 <= k < out@.len() ==> 0 <= #[trigger] perm[k] < i && out@[k] == v@[perm[k]],
            forall|k1: int, k2: int| 0 <= k1 < k2 < out@.len() ==> #[trigger] perm[k1] != #[trigger] perm[k2],
            forall|t: int| 0 <= t < i ==> #[trigger] occurs_in(perm, t),
        decreases v@.len() - i,
    {
        let m = v[i];
        let mut j: usize = out.len();
        while j > 0 && out[j - 1].host_memory_start > m.host_memory_start
            invariant
                j <= out@.len(),
                sorted_by_host(out@),
                forall|k: int| j <= k < out@.len() ==> #[trigger] out@[k].host_memory_start > m.host_memory_start,
            decreases j,
        {
            j -= 1;
        }
        let ghost before = out@;
        let ghost perm_before = perm;
        out.insert(j, m);
        proof {
            perm = perm.insert(j as int, i as int);
            assert(v@.subrange(0, i + 1) == v@.subrange(0, i as int).push(m));
            assert(out@ == before.insert(j as int, m));
            assert forall|p: int, q: int| 0 <= p < q < out@.len() implies #[trigger] out@[p].host_memory_start
                <= #[trigger] out@[q].host_memory_start by {
                if q < j {
                } else if q == j {
                    assert(out@[q] == m);
                    if p < j {
                        assert(out@[p] == before[p]);
                        if j > 0 {
                            assert(before[j - 1].host_memory_start <= m.host_memory_start);
                            assert(before[p].host_memory_start <= before[j - 1].host_memory_start);
                        }
                    }
                } else {
                    assert(out@[q] == before[q - 1]);
                    if p < j {
                        assert(out@[p] == before[p]);
                    } else if p == j {
                        assert(before[q - 1].host_memory_start > m.host_memory_start);
                    } else {
                        assert(out@[p] == before[p - 1]);
                    }
                }
            }
            assert forall|k: int| 0 <= k < out@.len() implies 0 <= #[trigger] perm[k] < i + 1 && out@[k] == v@[perm[k]] by {
                if k < j {
                    assert(perm[k] == perm_before[k]);
                } else if k > j {
                    assert(perm[k] == perm_before[k - 1]);
                }
            }
            assert forall|k1: int, k2: int| 0 <= k1 < k2 < out@.len() implies #[trigger] perm[k1] != #[trigger] perm[k2] by {
                if k1 != j && k2 != j {
                    let a1 = if k1 < j { k1 } else { k1 - 1 };
                    let a2 = if k2 < j { k2 } else { k2 - 1 };
                    assert(perm[k1] == perm_before[a1]);
                    assert(perm[k2] == perm_before[a2]);
                } else if k1 == j {
                    assert(perm[k2] == perm_before[k2 - 1]);
                } else {
                    assert(perm[k1] == perm_before[k1]);
                }
            }
            assert forall|t: int| 0 <= t < i + 1 implies #[trigger] occurs_in(perm, t) by {
                if t == i {
                    assert(perm[j as int] == t);
                } else {
                    assert(occurs_in(perm_before, t));
                    let k0 = choose|k: int| 0 <= k < perm_before.len() && #[trigger] perm_before[k] == t;
                    if k0 < j {
                        assert(perm[k0] == t);
                    } else {
                        assert(perm[k0 + 1] == t);
                    }
                }
            }
        }
        i += 1;
    }
    assert(v@.subrange(0, v@.len() as int) == v@);
    assert(is_index_permutation(v@, out@, perm));
    out
}

} // verus!
