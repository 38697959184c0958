//! Heap dumps: objects with their reference slots, roots and spaces, and
//! the synthetic heap dumps used for testing tracing loops.
use vstd::prelude::*;
use crate::parse::{
    find_byte, find_byte_spec, has_prefix, parse_bool, parse_bool_spec, parse_usize,
    parse_usize_spec, starts_with,
};
use crate::shuffle::shuffle_with_seed;
use vstd::string::StringSliceAdditionalSpecFns;

verus! {

/// A reference slot of an object and the object it refers to (0 for null).
#[derive(Debug, Clone, Copy, PartialEq, Eq, Structural)]
pub struct NormalEdge {
    pub slot: u64,
    pub objref: u64,
}

/// An object of a heap dump.
#[derive(Debug)]
pub struct HeapObject {
    pub start: u64,
    pub klass: u64,
    pub size: u64,
    pub objarray_length: Option<u64>,
    pub instance_mirror_start: Option<u64>,
    pub instance_mirror_count: Option<u64>,
    pub edges: Vec<NormalEdge>,
}

/// A root slot and the object it refers to.
#[derive(Debug, Clone, Copy, PartialEq, Eq, Structural)]
pub struct RootEdge {
    pub objref: u64,
}

/// A named address range of the heap.
#[derive(Debug)]
pub struct HeapSpace {
    pub name: String,
    pub start: u64,
    pub end: u64,
}

/// A snapshot of a heap.
#[derive(Debug)]
pub struct HeapDump {
    pub objects: Vec<HeapObject>,
    pub roots: Vec<RootEdge>,
    pub spaces: Vec<HeapSpace>,
}

/// The kind of space an address belongs to.
#[derive(Debug, Clone, Copy, PartialEq, Eq, Structural)]
pub enum Space {
    Immix,
    Immortal,
    Los,
    Nonmoving,
}

/// The bits of an address that name its space.
pub open spec fn space_code(o: u64) -> u64 {
    (o & 0xe0000000000u64) >> 41u64
}

/// The space named by a space code.
pub open spec fn space_of_code(code: u64) -> Space {
    if code == 1 {
        Space::Immix
    } else if code == 2 {
        Space::Immortal
    } else if code == 3 {
        Space::Los
    } else {
        Space::Nonmoving
    }
}

/// Where the synthetic heaps start.
pub const HEAP_BASE: u64 = 0x20000000000;
/// Size of a linked-list node: header, klass, value, next.
pub const LIST_NODE_SIZE: u64 = 32;
/// Size of a leaf object: header and klass.
pub const LEAF_OBJECT_SIZE: u64 = 16;
/// Klass id of the synthetic nodes and of the object array.
pub const SYNTHETIC_KLASS: u64 = 42;
/// Klass id of the leaves hanging off the object array.
pub const LEAF_KLASS: u64 = 43;

impl HeapDump {
    /// The space an object address lies in. Only addresses whose space bits
    /// name one of the four spaces are valid.
    pub fn get_space_type(o: u64) -> (r: Space)
        requires
            1 <= space_code(o) <= 4,
        ensures
            r == space_of_code(space_code(o)),
    {
        let space_mask: u64 = 0xe0000000000;
        let space_shift: u64 = 41;
        let code = (o & space_mask) >> space_shift;
        if code == 1 {
            Space::Immix
        } else if code == 2 {
            Space::Immortal
        } else if code == 3 {
            Space::Los
        } else {
            Space::Nonmoving
        }
    }

    /// The address range `(start, length)` of each space, to be mapped or unmapped.
    pub fn space_ranges(&self) -> (r: Vec<(u64, u64)>)
        requires
            forall|i: int| 0 <= i < self.spaces@.len() ==> (#[trigger] self.spaces@[i]).start <= self.spaces@[i].end,
        ensures
            r@.len() == self.spaces@.len(),
            forall|i: int|
                0 <= i < r@.len() ==> #[trigger] r@[i] == (self.spaces@[i].start, (self.spaces@[i].end
                    - self.spaces@[i].start) as u64),
    {
        let mut r: Vec<(u64, u64)> = Vec::new();
        let mut i: usize = 0;
        while i < self.spaces.len()
            invariant
                i <= self.spaces@.len(),
                forall|i: int| 0 <= i < self.spaces@.len() ==> (#[trigger] self.spaces@[i]).start <= self.spaces@[i].end,
                r@.len() == i,
                forall|j: int|
                    0 <= j < i ==> #[trigger] r@[j] == (self.spaces@[j].start, (self.spaces@[j].end
                        - self.spaces@[j].start) as u64),
            decreases self.spaces@.len() - i,
        {
            let s = &self.spaces[i];
            r.push((s.start, s.end - s.start));
            i += 1;
        }
        r
    }
}

/// `o` is a linked-list node at `start` whose next node, if any, is `next`.
pub open spec fn is_list_node(o: HeapObject, start: u64, next: Option<u64>) -> bool {
    &&& o.start == start
    &&& o.klass == SYNTHETIC_KLASS
    &&& o.size == LIST_NODE_SIZE
    &&& o.objarray_length is None
    &&& o.instance_mirror_start is None
    &&& o.instance_mirror_count is None
    &&& o.edges@ == match next {
        Some(n) => seq![NormalEdge { slot: (start + 16) as u64, objref: n }],
        None => Seq::<NormalEdge>::empty(),
    }
}

/// The address of the `i`-th node slot of the linked-list heap.
pub open spec fn node_address(i: int) -> u64 {
    (HEAP_BASE + i * LIST_NODE_SIZE) as u64
}

/// A linked list of `n` nodes fits in the address space.
pub open spec fn list_size_ok(n: nat) -> bool {
    1 <= n && HEAP_BASE + n * LIST_NODE_SIZE <= u64::MAX && n * LIST_NODE_SIZE <= usize::MAX
}

/// The list whose `i`-th node sits in slot `order[i]` and points to node `i + 1`.
pub open spec fn is_list_in_order(objects: Seq<HeapObject>, order: Seq<usize>) -> bool {
    &&& objects.len() == order.len()
    &&& forall|i: int|
        0 <= i < objects.len() ==> is_list_node(
            #[trigger] objects[i],
            node_address(order[i] as int),
            if i + 1 < objects.len() {
                Some(node_address(order[i + 1] as int))
            } else {
                None
            },
        )
}

/// The sequence `0, 1, ..., n - 1`.
pub open spec fn identity_order(n: nat) -> Seq<usize> {
    Seq::new(n, |i: int| i as usize)
}

/// A synthetic heap holding one linked list.
#[derive(Debug, Clone, Copy)]
pub struct LinkedListHeapDump {
    pub num_nodes: usize,
    pub sequential: bool,
}

/// The bytes `linked_list_`.
pub open spec fn linked_list_prefix() -> Seq<u8> {
    seq![108u8, 105, 110, 107, 101, 100, 95, 108, 105, 115, 116, 95]
}

/// The bytes `objarray_`.
pub open spec fn objarray_prefix() -> Seq<u8> {
    seq![111u8, 98, 106, 97, 114, 114, 97, 121, 95]
}

/// What a linked-list heap name `linked_list_<nodes>[_<sequential>]` says:
/// the node count and whether nodes are laid out in list order (default
/// true). Further `_`-separated parts are ignored.
pub open spec fn parse_linked_list_spec(s: Seq<u8>) -> Option<(usize, bool)> {
    if !has_prefix(s, linked_list_prefix()) {
        None
    } else {
        let lo = linked_list_prefix().len() as int;
        let u1 = find_byte_spec(s, lo, 95);
        match parse_usize_spec(s.subrange(lo, u1)) {
            None => None,
            Some(n) => if u1 >= s.len() {
                Some((n, true))
            } else {
                let u2 = find_byte_spec(s, u1 + 1, 95);
                match parse_bool_spec(s.subrange(u1 + 1, u2)) {
                    None => None,
                    Some(b) => Some((n, b)),
                }
            },
        }
    }
}

/// What an object-array heap name `objarray_<objects>` says: the number of leaves.
pub open spec fn parse_objarray_spec(s: Seq<u8>) -> Option<usize> {
    if !has_prefix(s, objarray_prefix()) {
        None
    } else {
        parse_usize_spec(s.subrange(objarray_prefix().len() as int, s.len() as int))
    }
}

/// The bytes `linked_list_`.
fn linked_list_prefix_bytes() -> (r: Vec<u8>)
    ensures
        r@ == linked_list_prefix(),
{
    let r = vec![108u8, 105, 110, 107, 101, 100, 95, 108, 105, 115, 116, 95];
    assert(r@ =~= linked_list_prefix());
    r
}

/// The bytes `objarray_`.
fn objarray_prefix_bytes() -> (r: Vec<u8>)
    ensures
        r@ == objarray_prefix(),
{
    let r = vec![111u8, 98, 106, 97, 114, 114, 97, 121, 95];
    assert(r@ =~= objarray_prefix());
    r
}

impl LinkedListHeapDump {
    /// Reads a heap name `linked_list_<nodes>[_<sequential>]`; `None` when it
    /// does not have that form.
    pub fn parse(path: &str) -> (r: Option<Self>)
        ensures
            match parse_linked_list_spec(path.spec_bytes()) {
                Some((n, b)) => r == Some(LinkedListHeapDump { num_nodes: n, sequential: b }),
                None => r is None,
            },
    {
        Self::parse_bytes(path.as_bytes())
    }

    /// Reads the bytes of a heap name `linked_list_<nodes>[_<sequential>]`.
    pub fn parse_bytes(s: &[u8]) -> (r: Option<Self>)
        ensures
            match parse_linked_list_spec(s@) {
                Some((n, b)) => r == Some(LinkedListHeapDump { num_nodes: n, sequential: b }),
                None => r is None,
            },
    {
        let prefix = linked_list_prefix_bytes();
        if !starts_with(s, prefix.as_slice()) {
            return None;
        }
        let lo: usize = 12;
        let u1 = find_byte(s, lo, 95);
        let n = match parse_usize(s, lo, u1) {
            Some(n) => n,
            None => return None,
        };
        if u1 >= s.len() {
            return Some(LinkedListHeapDump { num_nodes: n, sequential: true });
        }
        let u2 = find_byte(s, u1 + 1, 95);
        match parse_bool(s, u1 + 1, u2) {
            Some(b) => Some(LinkedListHeapDump { num_nodes: n, sequential: b }),
            None => None,
        }
    }

    /// The heap named `linked_list_<nodes>[_<sequential>]`; the name must have that form.
    pub fn new(path: &str) -> (r: Self)
        requires
            parse_linked_list_spec(path.spec_bytes()) is Some,
        ensures
            parse_linked_list_spec(path.spec_bytes()) == Some((r.num_nodes, r.sequential)),
    {
        match Self::parse(path) {
            Some(d) => d,
            None => LinkedListHeapDump { num_nodes: 0, sequential: true },
        }
    }

    /// The nodes laid out in list order.
    pub fn sequential_objects(&self) -> (r: Vec<HeapObject>)
        requires
            list_size_ok(self.num_nodes as nat),
        ensures
            is_list_in_order(r@, identity_order(self.num_nodes as nat)),
    {
        objects_in_order(&identity(self.num_nodes))
    }

    /// The nodes placed in slots shuffled by a seeded random generator; the
    /// list still links them in node order.
    pub fn random_objects(&self) -> (r: Vec<HeapObject>)
        requires
            list_size_ok(self.num_nodes as nat),
        ensures
            r@.len() == self.num_nodes,
            exists|order: Seq<usize>|
                #![trigger is_list_in_order(r@, order)]
                order.to_multiset() == identity_order(self.num_nodes as nat).to_multiset()
                    && is_list_in_order(r@, order),
    {
        let order = shuffle_with_seed(identity(self.num_nodes), 42);
        proof {
            lemma_permutation_bounded(order@, self.num_nodes as nat);
        }
        objects_in_order(&order)
    }

    /// The heap dump: the list, a root to its first node and the immix space it fills.
    pub fn to_heapdump(&self) -> (r: HeapDump)
        requires
            list_size_ok(self.num_nodes as nat),
        ensures
            is_linked_list_heapdump(r, self.num_nodes as nat, self.sequential),
    {
        let immix_space = HeapSpace {
            name: String::from_str("immix"),
            start: HEAP_BASE,
            end: HEAP_BASE + (self.num_nodes as u64) * LIST_NODE_SIZE,
        };
        let mut spaces: Vec<HeapSpace> = Vec::new();
        spaces.push(immix_space);
        let objects = if self.sequential {
            self.sequential_objects()
        } else {
            self.random_objects()
        };
        let mut roots: Vec<RootEdge> = Vec::new();
        roots.push(RootEdge { objref: objects[0].start });
        HeapDump { objects, roots, spaces }
    }
}

/// `hd` holds a linked list of `n` nodes, in list order when `sequential`
/// and in a shuffled order otherwise, one root to the first node and one
/// immix space that the nodes fill.
pub open spec fn is_linked_list_heapdump(hd: HeapDump, n: nat, sequential: bool) -> bool {
    &&& hd.objects@.len() == n
    &&& sequential ==> is_list_in_order(hd.objects@, identity_order(n))
    &&& !sequential ==> exists|order: Seq<usize>|
        #![trigger is_list_in_order(hd.objects@, order)]
        order.to_multiset() == identity_order(n).to_multiset() && is_list_in_order(hd.objects@, order)
    &&& hd.roots@ == seq![RootEdge { objref: hd.objects@[0].start }]
    &&& hd.spaces@.len() == 1
    &&& hd.spaces@[0].name@ == "immix"@
    &&& hd.spaces@[0].start == HEAP_BASE
    &&& hd.spaces@[0].end == HEAP_BASE + n * LIST_NODE_SIZE
}

/// The order `0, 1, ..., n - 1`.
fn identity(n: usize) -> (r: Vec<usize>)
    ensures
        r@ == identity_order(n as nat),
{
    let mut r: Vec<usize> = Vec::new();
    let mut i: usize = 0;
    while i < n
        invariant
            i <= n,
            r@ =~= identity_order(i as nat),
        decreases n - i,
    {
        r.push(i);
        i += 1;
    }
    r
}

/// Every element of a permutation of `0..n` is below `n`.
proof fn lemma_permutation_bounded(order: Seq<usize>, n: nat)
    requires
        order.to_multiset() == identity_order(n).to_multiset(),
    ensures
        order.len() == n,
        forall|i: int| 0 <= i < order.len() ==> (#[trigger] order[i] as nat) < n,
{
    order.to_multiset_ensures();
    identity_order(n).to_multiset_ensures();
    assert forall|i: int| 0 <= i < order.len() implies (#[trigger] order[i] as nat) < n by {
        assert(order.contains(order[i]));
        assert(identity_order(n).to_multiset().count(order[i]) > 0);
        assert(identity_order(n).contains(order[i]));
        let j = choose|j: int| 0 <= j < identity_order(n).len() && identity_order(n)[j] == order[i];
        assert(identity_order(n)[j] == j as usize);
    }
}

/// The linked list whose `i`-th node sits in slot `order[i]`.
pub fn objects_in_order(order: &Vec<usize>) -> (r: Vec<HeapObject>)
    requires
        list_size_ok(order@.len()),
        forall|i: int| 0 <= i < order@.len() ==> (#[trigger] order@[i] as nat) < order@.len(),
    ensures
        is_list_in_order(r@, order@),
{
    let n = order.len();
    let mut objects: Vec<HeapObject> = Vec::new();
    let mut i: usize = 0;
    while i < n
        invariant
            i <= n == order@.len(),
            list_size_ok(n as nat),
            forall|i: int| 0 <= i < order@.len() ==> (#[trigger] order@[i] as nat) < order@.len(),
            objects@.len() == i,
            forall|k: int|
                0 <= k < i ==> is_list_node(
                    #[trigger] objects@[k],
                    node_address(order@[k] as int),
                    if k + 1 < n {
                        Some(node_address(order@[k + 1] as int))
                    } else {
                        None
                    },
                ),
        decreases n - i,
    {
        let slot = order[i];
        proof {
            assert(slot < n);
            assert(slot * LIST_NODE_SIZE <= n * LIST_NODE_SIZE) by (nonlinear_arith)
                requires
                    slot < n,
            ;
        }
        let start = HEAP_BASE + (slot as u64) * LIST_NODE_SIZE;
        let mut edges: Vec<NormalEdge> = Vec::new();
        if i + 1 < n {
            let next_slot = order[i + 1];
            proof {
                assert(next_slot < n);
                assert(next_slot * LIST_NODE_SIZE <= n * LIST_NODE_SIZE) by (nonlinear_arith)
                    requires
                        next_slot < n,
                ;
            }
            let next = HEAP_BASE + (next_slot as u64) * LIST_NODE_SIZE;
            edges.push(NormalEdge { slot: start + 16, objref: next });
        }
        objects.push(
            HeapObject {
                start,
                klass: SYNTHETIC_KLASS,
                size: LIST_NODE_SIZE,
                objarray_length: None,
                instance_mirror_start: None,
                instance_mirror_count: None,
                edges,
            },
        );
        i += 1;
    }
    objects
}

/// The next multiple of 16 at or above `x`.
pub open spec fn round_up_16(x: int) -> int {
    ((x + 15) / 16) * 16
}

/// The object array of `n` leaves and its leaves fit in the address space.
pub open spec fn objarray_size_ok(n: nat) -> bool {
    HEAP_BASE + 24 + 24 * n + 15 <= u64::MAX && 24 + 24 * n <= usize::MAX
}

/// Where the leaves of an object array of `n` leaves start: right after the
/// array, aligned to 16 bytes.
pub open spec fn leaves_start(n: nat) -> int {
    round_up_16(HEAP_BASE + 24 + 8 * n)
}

/// `hd` holds one object array of `n` references to `n` leaf objects that
/// follow it, one root to the array, and one immix space.
pub open spec fn is_objarray_heapdump(hd: HeapDump, n: nat) -> bool {
    let array_size = 24 + 8 * n;
    let objs = hd.objects@;
    &&& objs.len() == n + 1
    &&& objs[0].start == HEAP_BASE
    &&& objs[0].klass == SYNTHETIC_KLASS
    &&& objs[0].size == array_size
    &&& objs[0].objarray_length == Some(n as u64)
    &&& objs[0].instance_mirror_start is None
    &&& objs[0].instance_mirror_count is None
    &&& objs[0].edges@.len() == n
    &&& forall|k: int|
        0 <= k < n ==> #[trigger] objs[0].edges@[k] == (NormalEdge {
            slot: (HEAP_BASE + 24 + 8 * k) as u64,
            objref: (leaves_start(n) + LEAF_OBJECT_SIZE * k) as u64,
        })
    &&& forall|k: int|
        1 <= k <= n ==> {
            let o = #[trigger] objs[k];
            &&& o.start == leaves_start(n) + LEAF_OBJECT_SIZE * (k - 1)
            &&& o.klass == LEAF_KLASS
            &&& o.size == LEAF_OBJECT_SIZE
            &&& o.objarray_length is None
            &&& o.instance_mirror_start is None
            &&& o.instance_mirror_count is None
            &&& o.edges@.len() == 0
        }
    &&& hd.roots@ == seq![RootEdge { objref: HEAP_BASE }]
    &&& hd.spaces@.len() == 1
    &&& hd.spaces@[0].name@ == "immix"@
    &&& hd.spaces@[0].start == HEAP_BASE
    &&& hd.spaces@[0].end == HEAP_BASE + LEAF_OBJECT_SIZE * n + array_size
}

/// A synthetic heap holding one object array whose elements are leaf objects.
#[derive(Debug, Clone, Copy)]
pub struct LeafObjectArrayHeapDump {
    pub num_objs: usize,
}

impl LeafObjectArrayHeapDump {
    /// Reads the bytes of a heap name `objarray_<objects>`.
    pub fn parse_bytes(s: &[u8]) -> (r: Option<Self>)
        ensures
            match parse_objarray_spec(s@) {
                Some(n) => r == Some(LeafObjectArrayHeapDump { num_objs: n }),
                None => r is None,
            },
    {
        let prefix = objarray_prefix_bytes();
        if !starts_with(s, prefix.as_slice()) {
            return None;
        }
        match parse_usize(s, 9, s.len()) {
            Some(n) => Some(LeafObjectArrayHeapDump { num_objs: n }),
            None => None,
        }
    }

    /// Reads a heap name `objarray_<objects>`; `None` when it does not have that form.
    pub fn parse(path: &str) -> (r: Option<Self>)
        ensures
            match parse_objarray_spec(path.spec_bytes()) {
                Some(n) => r == Some(LeafObjectArrayHeapDump { num_objs: n }),
                None => r is None,
            },
    {
        Self::parse_bytes(path.as_bytes())
    }

    /// The heap named `objarray_<objects>`; the name must have that form.
    pub fn new(path: &str) -> (r: Self)
        requires
            parse_objarray_spec(path.spec_bytes()) is Some,
        ensures
            parse_objarray_spec(path.spec_bytes()) == Some(r.num_objs),
    {
        match Self::parse(path) {
            Some(d) => d,
            None => LeafObjectArrayHeapDump { num_objs: 0 },
        }
    }

    /// The heap dump: the array, its leaves, a root to the array and the immix space.
    pub fn to_heapdump(&self) -> (r: HeapDump)
        requires
            objarray_size_ok(self.num_objs as nat),
        ensures
            is_objarray_heapdump(r, self.num_objs as nat),
    {
        let n = self.num_objs;
        let ghost ng = n as nat;
        let array_size: u64 = 24 + (n as u64) * 8;
        let unaligned: u64 = HEAP_BASE + array_size;
        let objects_start: u64 = ((unaligned + 15) / 16) * 16;
        proof {
            assert(objects_start == leaves_start(ng));
            assert(objects_start <= unaligned + 15) by (nonlinear_arith)
                requires
                    objects_start == ((unaligned + 15) / 16) * 16,
            ;
        }
        let immix_space = HeapSpace {
            name: String::from_str("immix"),
            start: HEAP_BASE,
            end: HEAP_BASE + ((n as u64) * LEAF_OBJECT_SIZE + array_size),
        };
        let mut spaces: Vec<HeapSpace> = Vec::new();
        spaces.push(immix_space);
        let mut roots: Vec<RootEdge> = Vec::new();
        roots.push(RootEdge { objref: HEAP_BASE });
        let mut content: Vec<NormalEdge> = Vec::new();
        let mut i: usize = 0;
        while i < n
            invariant
                i <= n,
                n == ng,
                objarray_size_ok(ng),
                objects_start == leaves_start(ng),
                objects_start <= HEAP_BASE + 24 + 8 * ng + 15,
                content@.len() == i,
                forall|k: int|
                    0 <= k < i ==> #[trigger] content@[k] == (NormalEdge {
                        slot: (HEAP_BASE + 24 + 8 * k) as u64,
                        objref: (leaves_start(ng) + LEAF_OBJECT_SIZE * k) as u64,
                    }),
            decreases n - i,
        {
            content.push(
                NormalEdge {
                    slot: HEAP_BASE + 24 + (i as u64) * 8,
                    objref: objects_start + (i as u64) * LEAF_OBJECT_SIZE,
                },
            );
            i += 1;
        }
        let mut objects: Vec<HeapObject> = Vec::new();
        objects.push(
            HeapObject {
                start: HEAP_BASE,
                klass: SYNTHETIC_KLASS,
                size: array_size,
                objarray_length: Some(n as u64),
                instance_mirror_start: None,
                instance_mirror_count: None,
                edges: content,
            },
        );
        let mut i: usize = 0;
        while i < n
            invariant
                i <= n,
                n == ng,
                objarray_size_ok(ng),
                objects_start == leaves_start(ng),
                objects_start <= HEAP_BASE + 24 + 8 * ng + 15,
                objects@.len() == i + 1,
                objects@[0].start == HEAP_BASE,
                objects@[0].klass == SYNTHETIC_KLASS,
                objects@[0].size == 24 + 8 * ng,
                objects@[0].objarray_length == Some(n as u64),
                objects@[0].instance_mirror_start is None,
                objects@[0].instance_mirror_count is None,
                objects@[0].edges@.len() == ng,
                forall|k: int|
                    0 <= k < ng ==> #[trigger] objects@[0].edges@[k] == (NormalEdge {
                        slot: (HEAP_BASE + 24 + 8 * k) as u64,
                        objref: (leaves_start(ng) + LEAF_OBJECT_SIZE * k) as u64,
                    }),
                forall|k: int|
                    1 <= k <= i ==> {
                        let o = #[trigger] objects@[k];
                        &&& o.start == leaves_start(ng) + LEAF_OBJECT_SIZE * (k - 1)
                        &&& o.klass == LEAF_KLASS
                        &&& o.size == LEAF_OBJECT_SIZE
                        &&& o.objarray_length is None
                        &&& o.instance_mirror_start is None
                        &&& o.instance_mirror_count is None
                        &&& o.edges@.len() == 0
                    },
            decreases n - i,
        {
            objects.push(
                HeapObject {
                    start: objects_start + (i as u64) * LEAF_OBJECT_SIZE,
                    klass: LEAF_KLASS,
                    size: LEAF_OBJECT_SIZE,
                    objarray_length: None,
                    instance_mirror_start: None,
                    instance_mirror_count: None,
                    edges: Vec::new(),
                },
            );
            i += 1;
        }
        HeapDump { objects, roots, spaces }
    }
}

/// The bytes `[synthetic]`.
pub open spec fn synthetic_prefix() -> Seq<u8> {
    seq![91u8, 115, 121, 110, 116, 104, 101, 116, 105, 99, 93]
}

/// The bytes `linked_list`.
pub open spec fn linked_list_tag() -> Seq<u8> {
    seq![108u8, 105, 110, 107, 101, 100, 95, 108, 105, 115, 116]
}

/// The bytes `objarray`.
pub open spec fn objarray_tag() -> Seq<u8> {
    seq![111u8, 98, 106, 97, 114, 114, 97, 121]
}

/// Why a path does not give a synthetic heap dump.
#[derive(Debug, Clone, Copy, PartialEq, Eq, Structural)]
pub enum HeapDumpPathError {
    /// The path names a heap dump file, to be read and decoded by the caller.
    NotSynthetic,
    /// The path starts with `[synthetic]` but names no known synthetic heap.
    InvalidSyntheticName,
}

/// The name after `[synthetic]`.
pub open spec fn synthetic_name(p: Seq<u8>) -> Seq<u8> {
    p.subrange(synthetic_prefix().len() as int, p.len() as int)
}

/// The synthetic heaps named by a path can be built: their names are well
/// formed and their sizes fit in the address space.
pub open spec fn synthetic_path_ok(p: Seq<u8>) -> bool {
    has_prefix(p, synthetic_prefix()) ==> {
        let name = synthetic_name(p);
        &&& has_prefix(name, linked_list_tag()) ==> match parse_linked_list_spec(name) {
            Some((n, _)) => list_size_ok(n as nat),
            None => false,
        }
        &&& (!has_prefix(name, linked_list_tag()) && has_prefix(name, objarray_tag())) ==> match parse_objarray_spec(name) {
            Some(n) => objarray_size_ok(n as nat),
            None => false,
        }
    }
}

/// The bytes `s[lo..]`.
fn copy_tail(s: &[u8], lo: usize) -> (r: Vec<u8>)
    requires
        lo <= s@.len(),
    ensures
        r@ == s@.subrange(lo as int, s@.len() as int),
{
    let mut r: Vec<u8> = Vec::new();
    let mut k = lo;
    while k < s.len()
        invariant
            lo <= k <= s@.len(),
            r@ =~= s@.subrange(lo as int, k as int),
        decreases s@.len() - k,
    {
        r.push(s[k]);
        k += 1;
    }
    r
}

impl HeapDump {
    /// The heap dump a path names when it is synthetic: `[synthetic]linked_list_...`
    /// or `[synthetic]objarray_...`. Any other path names a file, which the caller reads.
    pub fn from_path(path: &str) -> (r: Result<HeapDump, HeapDumpPathError>)
        requires
            synthetic_path_ok(path.spec_bytes()),
        ensures
            ({
                let p = path.spec_bytes();
                let name = synthetic_name(p);
                if !has_prefix(p, synthetic_prefix()) {
                    r == Err::<HeapDump, HeapDumpPathError>(HeapDumpPathError::NotSynthetic)
                } else if has_prefix(name, linked_list_tag()) {
                    match (r, parse_linked_list_spec(name)) {
                        (Ok(hd), Some((n, b))) => is_linked_list_heapdump(hd, n as nat, b),
                        _ => false,
                    }
                } else if has_prefix(name, objarray_tag()) {
                    match (r, parse_objarray_spec(name)) {
                        (Ok(hd), Some(n)) => is_objarray_heapdump(hd, n as nat),
                        _ => false,
                    }
                } else {
                    r == Err::<HeapDump, HeapDumpPathError>(HeapDumpPathError::InvalidSyntheticName)
                }
            }),
    {
        let s = path.as_bytes();
        let synth = vec![91u8, 115, 121, 110, 116, 104, 101, 116, 105, 99, 93];
        assert(synth@ =~= synthetic_prefix());
        if !starts_with(s, synth.as_slice()) {
            return Err(HeapDumpPathError::NotSynthetic);
        }
        let name = copy_tail(s, 11);
        let ll = vec![108u8, 105, 110, 107, 101, 100, 95, 108, 105, 115, 116];
        assert(ll@ =~= linked_list_tag());
        let oa = vec![111u8, 98, 106, 97, 114, 114, 97, 121];
        assert(oa@ =~= objarray_tag());
        if starts_with(name.as_slice(), ll.as_slice()) {
            match LinkedListHeapDump::parse_bytes(name.as_slice()) {
                Some(d) => Ok(d.to_heapdump()),
                None => Err(HeapDumpPathError::InvalidSyntheticName),
            }
        } else if starts_with(name.as_slice(), oa.as_slice()) {
            match LeafObjectArrayHeapDump::parse_bytes(name.as_slice()) {
                Some(d) => Ok(d.to_heapdump()),
                None => Err(HeapDumpPathError::InvalidSyntheticName),
            }
        } else {
            Err(HeapDumpPathError::InvalidSyntheticName)
        }
    }
}

} // verus!
