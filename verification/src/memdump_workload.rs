//! Synthetic workloads written straight into a memory dump: linked lists
//! laid out for the bidirectional object model, with one root.
//!
//! The host address space of a workload looks like
//! - 0x1000: the number of roots, which is one;
//! - 0x1008: the root, pointing at the first node;
//! - 0x2000 onwards: the nodes.
use vstd::prelude::*;
use crate::header::{with_byte, Header};
use crate::memdump::{
    covering_index, covers, lemma_covering_unique, strictly_sorted, MemdumpPhysical, MemdumpPhysicalMapping,
    MemdumpPhysicalMemoryInterface, MAPPING_PAGE_SIZE,
};
use crate::memif::{align_up_spec, MemoryInterface};
use crate::target_memory::TargetMemory;

verus! {

broadcast use vstd::seq_lib::group_to_multiset_ensures;

/// Host address of the root count; the root follows it.
pub const ROOTS_ADDRESS: u64 = 0x1000;
/// Bytes mapped for the root count and the root.
pub const ROOTS_SIZE: usize = 16;
/// Host address of the first node.
pub const NODES_ADDRESS: u64 = 0x2000;
/// Bytes of a bidirectional list node: a value, a header, a TIB pointer and
/// the next pointer.
pub const NODE_SIZE: u64 = 32;
/// Bytes of a plain list node: the next pointer and a value.
pub const PLAIN_NODE_SIZE: u64 = 16;
/// Header byte that tells the status of the object.
pub const STATUS_BYTE_OFFSET: u8 = 1;
/// Header byte that holds the number of references.
pub const NUMREFS_BYTE_OFFSET: u8 = 2;

/// The header of a list node: status known, one reference.
pub open spec fn list_node_header() -> u64 {
    with_byte(with_byte(0, 1, STATUS_BYTE_OFFSET as int), 1, NUMREFS_BYTE_OFFSET as int)
}

/// The two mappings a workload takes from a fresh dump `md`: the roots
/// page, then `space` bytes of nodes on the pages after it.
pub open spec fn workload_mappings(md: MemdumpPhysical, space: usize) -> Seq<MemdumpPhysicalMapping> {
    let b1 = md.cursor();
    let t1 = md.target_base() + (b1 - md.backing_base());
    seq![
        MemdumpPhysicalMapping {
            backing_memory_start: b1,
            target_memory_start: t1 as u64,
            host_memory_start: ROOTS_ADDRESS,
            size: ROOTS_SIZE,
        },
        MemdumpPhysicalMapping {
            backing_memory_start: (b1 + MAPPING_PAGE_SIZE) as u64,
            target_memory_start: (t1 + MAPPING_PAGE_SIZE) as u64,
            host_memory_start: NODES_ADDRESS,
            size: space,
        },
    ]
}

/// How far the backing address of a node-space word is from its host address.
pub open spec fn node_backing_delta(md: MemdumpPhysical) -> int {
    md.cursor() + MAPPING_PAGE_SIZE - NODES_ADDRESS
}

/// How far the target address of a node-space word is from its host address.
pub open spec fn node_target_delta(md: MemdumpPhysical) -> int {
    md.target_base() + (md.cursor() - md.backing_base()) + MAPPING_PAGE_SIZE - NODES_ADDRESS
}

/// There is room in `md` for the roots page and `space` bytes of nodes.
pub open spec fn workload_fits(md: MemdumpPhysical, space: usize) -> bool {
    &&& md.mapping_list().len() == 0
    &&& NODES_ADDRESS + space <= usize::MAX
    &&& md.cursor() + MAPPING_PAGE_SIZE + align_up_spec(space as int, MAPPING_PAGE_SIZE as int)
        <= md.backing_base() + md.backing_size()
}

/// A list of `num_nodes` plain nodes, each a next pointer and a value.
pub struct LinkedList {
    pub num_nodes: usize,
}

/// Memory `m` after plain nodes `0..n` of a list of `total` are written,
/// node-space host address `a` being backed at `a + db` and seen by the
/// target at `a + dt`.
pub open spec fn plain_list_nodes(m: Map<u64, u64>, total: int, db: int, dt: int, n: nat) -> Map<u64, u64>
    decreases n,
{
    if n == 0 {
        m
    } else {
        let idx = n - 1;
        let a = NODES_ADDRESS + idx * PLAIN_NODE_SIZE;
        let m1 = plain_list_nodes(m, total, db, dt, (n - 1) as nat);
        let m2 = if idx != total - 1 {
            m1.insert((a + db) as u64, (a + PLAIN_NODE_SIZE + dt) as u64)
        } else {
            m1
        };
        m2.insert((a + 8 + db) as u64, idx as u64)
    }
}

/// A linked list whose nodes are grouped so that each group lies in the
/// part of memory one thread owns.
pub struct HeapLinkedList {
    pub num_nodes: usize,
    pub log_num_thread: u8,
    pub owner_shift: u8,
    pub owner: Option<u8>,
}

/// `2^e`.
pub open spec fn pow2_u8(e: u8) -> int {
    vstd::arithmetic::power2::pow2(e as nat) as int
}

/// Nodes per group: as many as one thread's part holds, or all of them.
pub open spec fn group_size_spec(l: HeapLinkedList) -> int {
    match l.owner {
        Some(_) => pow2_u8(l.owner_shift) / (NODE_SIZE as int),
        None => l.num_nodes as int,
    }
}

/// Host address of node `idx`: groups of nodes follow each other, each
/// group taking one part per thread, and the nodes sit in the owner's part.
pub open spec fn node_address_spec(l: HeapLinkedList, idx: int) -> int {
    let gs = group_size_spec(l);
    match l.owner {
        Some(o) => NODES_ADDRESS + (idx / gs) * gs * pow2_u8(l.log_num_thread) * NODE_SIZE + o * gs * NODE_SIZE
            + (idx % gs) * NODE_SIZE,
        None => NODES_ADDRESS + idx * NODE_SIZE,
    }
}

/// Bytes mapped for the nodes: one node per thread and node where there
/// is an owner.
pub open spec fn space_required_spec(l: HeapLinkedList) -> int {
    match l.owner {
        Some(_) => l.num_nodes * NODE_SIZE * pow2_u8(l.log_num_thread),
        None => l.num_nodes * NODE_SIZE,
    }
}

/// Parameters the list can be built with: an owner's part holds at least
/// one node and at most a page, the owner is one of the threads, and the
/// last node lies inside the mapped space.
pub open spec fn list_params_ok(l: HeapLinkedList) -> bool {
    &&& 5 <= l.owner_shift < 12
    &&& (l.log_num_thread as u32) < usize::BITS
    &&& l.num_nodes >= 1
    &&& l.owner matches Some(o) ==> o < pow2_u8(l.log_num_thread)
    &&& node_address_spec(l, l.num_nodes - 1) + NODE_SIZE <= NODES_ADDRESS + space_required_spec(l)
}

/// Memory `m` after nodes `0..n` of `l` are written, node-space host
/// address `a` being backed at `a + db` and seen by the target at `a + dt`.
pub open spec fn heap_list_nodes(m: Map<u64, u64>, l: HeapLinkedList, db: int, dt: int, n: nat) -> Map<u64, u64>
    decreases n,
{
    if n == 0 {
        m
    } else {
        let idx = n - 1;
        let a = node_address_spec(l, idx);
        let m1 = heap_list_nodes(m, l, db, dt, (n - 1) as nat).insert((a + db) as u64, idx as u64).insert(
            (a + 8 + db) as u64,
            list_node_header(),
        ).insert((a + 16 + db) as u64, 0);
        if idx == l.num_nodes - 1 {
            m1
        } else {
            m1.insert((a + 24 + db) as u64, (node_address_spec(l, idx + 1) + 8 + dt) as u64)
        }
    }
}

proof fn lemma_group_size(l: HeapLinkedList)
    requires
        list_params_ok(l),
    ensures
        group_size_spec(l) >= 1,
        pow2_u8(l.log_num_thread) >= 1,
        l.owner is Some ==> group_size_spec(l) <= 64 && group_size_spec(l) * NODE_SIZE == pow2_u8(
            l.owner_shift,
        ),
{
    vstd::arithmetic::power2::lemma_pow2_pos(l.log_num_thread as nat);
    if l.owner is Some {
        let e = (l.owner_shift - 5) as nat;
        vstd::arithmetic::power2::lemma_pow2_adds(5, e);
        vstd::arithmetic::power2::lemma_pow2_pos(e);
        vstd::arithmetic::power2::lemma2_to64();
        if e < 6 {
            vstd::arithmetic::power2::lemma_pow2_strictly_increases(e, 6);
        }
        assert(5 + e == l.owner_shift);
    }
}

/// Node addresses grow with the index.
proof fn lemma_node_address_monotone(l: HeapLinkedList, i: int, j: int)
    requires
        list_params_ok(l),
        0 <= i <= j,
    ensures
        node_address_spec(l, i) <= node_address_spec(l, j),
{
    lemma_group_size(l);
    let gs = group_size_spec(l);
    let nt = pow2_u8(l.log_num_thread);
    if let Some(o) = l.owner {
        let gi = i / gs;
        let gj = j / gs;
        let pi = i % gs;
        let pj = j % gs;
        vstd::arithmetic::div_mod::lemma_div_is_ordered(i, j, gs);
        assert(i == gi * gs + pi && 0 <= pi < gs && j == gj * gs + pj && 0 <= pj < gs && gi >= 0)
            by (nonlinear_arith)
            requires
                gs >= 1,
                0 <= i <= j,
                gi == i / gs,
                gj == j / gs,
                pi == i % gs,
                pj == j % gs,
        ;
        if gi == gj {
            assert(pi <= pj);
        } else {
            assert(gi * gs * nt + o * gs + pi <= gj * gs * nt) by (nonlinear_arith)
                requires
                    gi + 1 <= gj,
                    0 <= o < nt,
                    0 <= pi < gs,
                    gs >= 1,
            ;
            assert(0 <= o * gs + pj) by (nonlinear_arith)
                requires
                    o >= 0,
                    gs >= 1,
                    pj >= 0,
            ;
        }
        assert(node_address_spec(l, i) == NODES_ADDRESS + (gi * gs * nt + o * gs + pi) * NODE_SIZE)
            by (nonlinear_arith)
            requires
                node_address_spec(l, i) == NODES_ADDRESS + gi * gs * nt * NODE_SIZE + o * gs * NODE_SIZE + pi
                    * NODE_SIZE,
        ;
        assert(node_address_spec(l, j) == NODES_ADDRESS + (gj * gs * nt + o * gs + pj) * NODE_SIZE)
            by (nonlinear_arith)
            requires
                node_address_spec(l, j) == NODES_ADDRESS + gj * gs * nt * NODE_SIZE + o * gs * NODE_SIZE + pj
                    * NODE_SIZE,
        ;
    }
}

/// Every node lies, with all four of its words, inside the node space.
proof fn lemma_node_in_space(l: HeapLinkedList, idx: int)
    requires
        list_params_ok(l),
        0 <= idx < l.num_nodes,
    ensures
        NODES_ADDRESS <= node_address_spec(l, idx),
        node_address_spec(l, idx) + NODE_SIZE <= NODES_ADDRESS + space_required_spec(l),
{
    lemma_group_size(l);
    lemma_node_address_monotone(l, idx, l.num_nodes - 1);
    lemma_node_address_monotone(l, 0, idx);
    let gs = group_size_spec(l);
    if let Some(o) = l.owner {
        assert(0int / gs == 0 && 0int % gs == 0);
        assert(0 <= o * gs * NODE_SIZE) by (nonlinear_arith)
            requires
                o >= 0,
                gs >= 1,
        ;
    }
}

/// The mappings of a workload are ordered and hold the roots page and the
/// node space.
proof fn lemma_workload_covers(ms: Seq<MemdumpPhysicalMapping>, i: int, a: u64)
    requires
        ms.len() == 2,
        ms[0].host_memory_start == ROOTS_ADDRESS,
        ms[0].size == ROOTS_SIZE,
        ms[1].host_memory_start == NODES_ADDRESS,
        i == 0 || i == 1,
        i == 0 ==> ROOTS_ADDRESS <= a < ROOTS_ADDRESS + ROOTS_SIZE,
        i == 1 ==> NODES_ADDRESS <= a && (a == NODES_ADDRESS || a < NODES_ADDRESS + ms[1].size),
    ensures
        strictly_sorted(ms),
        covers(ms, i, a),
        covering_index(ms, a) == i,
{
    assert forall|p: int, q: int| 0 <= p < q < ms.len() implies #[trigger] ms[p].host_memory_start
        < #[trigger] ms[q].host_memory_start by {
        assert(p == 0 && q == 1);
    }
    assert(covers(ms, i, a));
    lemma_covering_unique(ms, covering_index(ms, a), i, a);
}

/// A strictly ordered rearrangement of two mappings in order is those two
/// mappings.
proof fn lemma_two_sorted(s: Seq<MemdumpPhysicalMapping>, t: Seq<MemdumpPhysicalMapping>)
    requires
        t.len() == 2,
        t[0].host_memory_start < t[1].host_memory_start,
        s.to_multiset() == t.to_multiset(),
        strictly_sorted(s),
    ensures
        s == t,
{
    vstd::seq_lib::to_multiset_len(s);
    vstd::seq_lib::to_multiset_len(t);
    assert forall|k: int| 0 <= k < 2 implies #[trigger] s[k] == t[0] || s[k] == t[1] by {
        assert(s.contains(s[k]));
        assert(t.to_multiset().count(s[k]) > 0);
        assert(t.contains(s[k]));
        let w = choose|w: int| 0 <= w < t.len() && t[w] == s[k];
        assert(w == 0 || w == 1);
    }
    assert(s[0].host_memory_start < s[1].host_memory_start);
    assert(s =~= t);
}

/// Maps the roots page and `space` bytes of nodes in a fresh dump, and
/// writes the root count, one.
fn map_workload(md: &mut MemdumpPhysical, mem: &mut TargetMemory, space: usize) -> (r:
    MemdumpPhysicalMemoryInterface)
    requires
        workload_fits(*old(md), space),
    ensures
        r.mappings() == workload_mappings(*old(md), space),
        r.mappings()[1].backing_memory_start == old(md).cursor() + MAPPING_PAGE_SIZE,
        r.mappings()[1].target_memory_start == old(md).target_base() + (old(md).cursor() - old(
            md,
        ).backing_base()) + MAPPING_PAGE_SIZE,
        final(md).mapping_list() == workload_mappings(*old(md), space),
        final(md).cursor() == old(md).cursor() + MAPPING_PAGE_SIZE + align_up_spec(
            space as int,
            MAPPING_PAGE_SIZE as int,
        ),
        final(md).backing_base() == old(md).backing_base(),
        final(md).backing_size() == old(md).backing_size(),
        final(md).target_base() == old(md).target_base(),
        final(mem)@ == old(mem)@.insert(old(md).cursor(), 1),
{
    let ghost ws = workload_mappings(*md, space);
    assert(align_up_spec(ROOTS_SIZE as int, MAPPING_PAGE_SIZE as int) == MAPPING_PAGE_SIZE) by (nonlinear_arith);
    let _roots = md.new_mapping(ROOTS_ADDRESS, ROOTS_SIZE);
    let _nodes = md.new_mapping(NODES_ADDRESS, space);
    let ghost ml = md.mapping_list();
    proof {
        assert(ml =~= ws);
        assert forall|p: int, q: int| 0 <= p < q < ml.len() implies #[trigger] ml[p].host_memory_start
            != #[trigger] ml[q].host_memory_start by {
            assert(p == 0 && q == 1);
        }
    }
    let memif = md.gen_memif().unwrap();
    proof {
        lemma_two_sorted(memif.mappings(), ml);
        lemma_workload_covers(ml, 0, ROOTS_ADDRESS);
    }
    memif.write_value_to_target(mem, ROOTS_ADDRESS, 1);
    memif
}

/// Memory `m` after the plain list `l` is written into a fresh dump `md`:
/// the root count, the root, then the nodes.
pub open spec fn plain_list_memory(m: Map<u64, u64>, l: LinkedList, md: MemdumpPhysical) -> Map<u64, u64> {
    let dt = node_target_delta(md);
    plain_list_nodes(
        m.insert(md.cursor(), 1).insert((md.cursor() + 8) as u64, (NODES_ADDRESS + dt) as u64),
        l.num_nodes as int,
        node_backing_delta(md),
        dt,
        l.num_nodes as nat,
    )
}

/// Bytes the nodes of a plain list take.
pub open spec fn plain_space(l: LinkedList) -> int {
    l.num_nodes * PLAIN_NODE_SIZE
}

impl LinkedList {
    /// A list of `num_nodes` nodes.
    pub fn new(num_nodes: usize) -> (r: Self)
        ensures
            r.num_nodes == num_nodes,
    {
        LinkedList { num_nodes }
    }

    /// Writes the list into a fresh dump: node `i` sits at
    /// `0x2000 + 16 * i`, holds a pointer to node `i + 1` (but the last)
    /// and then the value `i`; the root points at node 0.
    pub fn gen_memdump(&self, md: &mut MemdumpPhysical, mem: &mut TargetMemory)
        requires
            NODES_ADDRESS + plain_space(*self) <= usize::MAX,
            workload_fits(*old(md), plain_space(*self) as usize),
        ensures
            final(md).mapping_list() == workload_mappings(*old(md), plain_space(*self) as usize),
            final(md).cursor() == old(md).cursor() + MAPPING_PAGE_SIZE + align_up_spec(
                plain_space(*self),
                MAPPING_PAGE_SIZE as int,
            ),
            final(md).backing_base() == old(md).backing_base(),
            final(md).backing_size() == old(md).backing_size(),
            final(md).target_base() == old(md).target_base(),
            final(mem)@ == plain_list_memory(old(mem)@, *self, *old(md)),
    {
        let num_nodes = self.num_nodes;
        let space: usize = 16 * num_nodes;
        let ghost ms = workload_mappings(*md, space);
        let ghost db = node_backing_delta(*md);
        let ghost dt = node_target_delta(*md);
        let memif = map_workload(md, mem, space);
        proof {
            lemma_workload_covers(ms, 0, (ROOTS_ADDRESS + 8) as u64);
            lemma_workload_covers(ms, 1, NODES_ADDRESS);
        }
        memif.write_pointer_to_target(mem, ROOTS_ADDRESS + 8, NODES_ADDRESS);
        let ghost m0 = mem@;
        let mut i: usize = 0;
        while i < num_nodes
            invariant
                num_nodes == self.num_nodes,
                space == plain_space(*self),
                NODES_ADDRESS + space <= usize::MAX,
                memif.mappings() == ms,
                ms.len() == 2,
                ms[0].host_memory_start == ROOTS_ADDRESS,
                ms[0].size == ROOTS_SIZE,
                ms[1].host_memory_start == NODES_ADDRESS,
                ms[1].size == space,
                ms[1].backing_memory_start == NODES_ADDRESS + db,
                ms[1].target_memory_start == NODES_ADDRESS + dt,
                i <= num_nodes,
                mem@ == plain_list_nodes(m0, num_nodes as int, db, dt, i as nat),
            decreases num_nodes - i,
        {
            let a: usize = 0x2000 + 16 * i;
            if i != num_nodes - 1 {
                proof {
                    lemma_workload_covers(ms, 1, a as u64);
                    lemma_workload_covers(ms, 1, (a + 16) as u64);
                }
                memif.write_pointer_to_target(mem, a as u64, (a + 16) as u64);
            }
            proof {
                lemma_workload_covers(ms, 1, (a + 8) as u64);
            }
            memif.write_value_to_target(mem, (a + 8) as u64, i as u64);
            i += 1;
        }
    }
}

/// Memory `m` after the list `l` is written into a fresh dump `md`: the
/// root count, the root, then the nodes.
pub open spec fn heap_list_memory(m: Map<u64, u64>, l: HeapLinkedList, md: MemdumpPhysical) -> Map<u64, u64> {
    let dt = node_target_delta(md);
    heap_list_nodes(
        m.insert(md.cursor(), 1).insert((md.cursor() + 8) as u64, (node_address_spec(l, 0) + 8 + dt) as u64),
        l,
        node_backing_delta(md),
        dt,
        l.num_nodes as nat,
    )
}

impl HeapLinkedList {
    /// A list of `num_nodes` nodes over `2^log_num_thread` threads, each of
    /// which owns parts of `2^owner_shift` bytes; with an owner, all nodes
    /// go into that thread's parts.
    pub fn new(num_nodes: usize, log_num_thread: u8, owner_shift: u8, owner: Option<u8>) -> (r: Self)
        ensures
            r == (HeapLinkedList { num_nodes, log_num_thread, owner_shift, owner }),
    {
        HeapLinkedList { num_nodes, log_num_thread, owner_shift, owner }
    }

    /// Host address of node `idx`.
    fn obj_address(&self, idx: usize, group_size: usize, num_threads: usize) -> (r: usize)
        requires
            list_params_ok(*self),
            NODES_ADDRESS + space_required_spec(*self) <= usize::MAX,
            group_size == group_size_spec(*self),
            num_threads == pow2_u8(self.log_num_thread),
            idx < self.num_nodes,
        ensures
            r == node_address_spec(*self, idx as int),
    {
        proof {
            lemma_group_size(*self);
            lemma_node_in_space(*self, idx as int);
        }
        let group_idx = idx / group_size;
        let pos_in_group = idx % group_size;
        let group_start: usize = match self.owner {
            Some(o) => {
                let ghost g = group_idx as int;
                let ghost gs = group_size as int;
                let ghost nt = num_threads as int;
                let ghost p = pos_in_group as int;
                let ghost top = node_address_spec(*self, idx as int) - NODES_ADDRESS;
                proof {
                    assert(0 <= p && g >= 0) by (nonlinear_arith)
                        requires
                            gs >= 1,
                            g == (idx as int) / gs,
                            p == (idx as int) % gs,
                    ;
                    assert(top == g * gs * nt * 32 + o * gs * 32 + p * 32);
                    assert(g * gs <= g * gs * nt && g * gs * nt <= g * gs * nt * 32 && o * gs <= o * gs * 32
                        && 0 <= o * gs && 0 <= g * gs && 0 <= p * 32) by (nonlinear_arith)
                        requires
                            g >= 0,
                            gs >= 1,
                            nt >= 1,
                            o >= 0,
                            p >= 0,
                    ;
                }
                0x2000 + group_idx * group_size * num_threads * 32 + (o as usize) * group_size * 32
            },
            None => {
                proof {
                    vstd::arithmetic::div_mod::lemma_basic_div(idx as int, group_size as int);
                    vstd::arithmetic::div_mod::lemma_small_mod(idx as nat, group_size as nat);
                }
                0x2000
            },
        };
        group_start + pos_in_group * 32
    }

    /// Writes the list into a fresh dump.  Each node is a value (its
    /// index), a header giving one reference, a null TIB and a pointer to
    /// the next node's reference (but the last); the root points at the
    /// first node's reference, eight bytes into the node.
    pub fn gen_memdump(&self, md: &mut MemdumpPhysical, mem: &mut TargetMemory)
        requires
            list_params_ok(*self),
            NODES_ADDRESS + space_required_spec(*self) <= usize::MAX,
            workload_fits(*old(md), space_required_spec(*self) as usize),
        ensures
            final(md).mapping_list() == workload_mappings(*old(md), space_required_spec(*self) as usize),
            final(md).cursor() == old(md).cursor() + MAPPING_PAGE_SIZE + align_up_spec(
                space_required_spec(*self),
                MAPPING_PAGE_SIZE as int,
            ),
            final(md).backing_base() == old(md).backing_base(),
            final(md).backing_size() == old(md).backing_size(),
            final(md).target_base() == old(md).target_base(),
            final(mem)@ == heap_list_memory(old(mem)@, *self, *old(md)),
    {
        let ghost l = *self;
        let num_nodes = self.num_nodes;
        proof {
            lemma_group_size(l);
            vstd::bits::lemma_usize_pow2_no_overflow(self.log_num_thread as nat);
            vstd::bits::lemma_usize_shl_is_mul(1, self.log_num_thread as usize);
            vstd::bits::lemma_usize_pow2_no_overflow(self.owner_shift as nat);
            vstd::bits::lemma_usize_shl_is_mul(1, self.owner_shift as usize);
        }
        let num_threads: usize = 1usize << (self.log_num_thread as usize);
        let visibility_size: usize = 1usize << (self.owner_shift as usize);
        proof {
            assert(num_nodes * 32 <= space_required_spec(l)) by (nonlinear_arith)
                requires
                    l.owner is Some ==> space_required_spec(l) == num_nodes * 32 * num_threads,
                    l.owner is None ==> space_required_spec(l) == num_nodes * 32,
                    num_threads >= 1,
                    num_nodes >= 1,
            ;
        }
        let mut space_required: usize = num_nodes * 32;
        if self.owner.is_some() {
            space_required = space_required * num_threads;
        }
        let group_size: usize = if self.owner.is_some() {
            visibility_size / 32
        } else {
            num_nodes
        };
        let ghost ms = workload_mappings(*md, space_required);
        let ghost db = node_backing_delta(*md);
        let ghost dt = node_target_delta(*md);
        let memif = map_workload(md, mem, space_required);
        let first = self.obj_address(0, group_size, num_threads);
        proof {
            lemma_node_in_space(l, 0);
            lemma_workload_covers(ms, 0, (ROOTS_ADDRESS + 8) as u64);
            lemma_workload_covers(ms, 1, (first + 8) as u64);
        }
        memif.write_pointer_to_target(mem, ROOTS_ADDRESS + 8, (first + 8) as u64);
        let ghost m0 = mem@;
        let mut idx: usize = 0;
        while idx < num_nodes
            invariant
                l == *self,
                num_nodes == l.num_nodes,
                list_params_ok(l),
                space_required == space_required_spec(l),
                NODES_ADDRESS + space_required <= usize::MAX,
                group_size == group_size_spec(l),
                num_threads == pow2_u8(l.log_num_thread),
                memif.mappings() == ms,
                ms.len() == 2,
                ms[0].host_memory_start == ROOTS_ADDRESS,
                ms[0].size == ROOTS_SIZE,
                ms[1].host_memory_start == NODES_ADDRESS,
                ms[1].size == space_required,
                ms[1].backing_memory_start == NODES_ADDRESS + db,
                ms[1].target_memory_start == NODES_ADDRESS + dt,
                idx <= num_nodes,
                mem@ == heap_list_nodes(m0, l, db, dt, idx as nat),
            decreases num_nodes - idx,
        {
            let is_last = idx == num_nodes - 1;
            let a = self.obj_address(idx, group_size, num_threads);
            proof {
                lemma_node_in_space(l, idx as int);
                lemma_workload_covers(ms, 1, a as u64);
                lemma_workload_covers(ms, 1, (a + 8) as u64);
                lemma_workload_covers(ms, 1, (a + 16) as u64);
            }
            memif.write_value_to_target(mem, a as u64, idx as u64);
            let mut header = Header::new();
            header.set_byte(1, STATUS_BYTE_OFFSET);
            header.set_byte(1, NUMREFS_BYTE_OFFSET);
            memif.write_value_to_target(mem, (a + 8) as u64, header.value());
            memif.write_pointer_to_target(mem, (a + 16) as u64, 0);
            if !is_last {
                let next = self.obj_address(idx + 1, group_size, num_threads);
                proof {
                    lemma_node_in_space(l, idx + 1);
                    lemma_workload_covers(ms, 1, (a + 24) as u64);
                    lemma_workload_covers(ms, 1, (next + 8) as u64);
                }
                memif.write_pointer_to_target(mem, (a + 24) as u64, (next + 8) as u64);
            }
            idx += 1;
        }
    }
}

} // verus!
