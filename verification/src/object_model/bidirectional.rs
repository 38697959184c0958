//! The bidirectional object model: every non-array object is moved so
//! that its reference fields sit right after its header and TIB words, at
//! the end of its original extent.  Optionally the header word also says
//! how many references follow, so that most objects are scanned without
//! reading their TIB.
use vstd::prelude::*;
use std::collections::HashMap;
use crate::header::{byte_of, lemma_get_set_other, lemma_get_set_same, with_byte, Header};
use crate::heapdump::{HeapDump, HeapObject, RootEdge};
use crate::memif::{align_up_spec, BumpAllocationArena, MemoryInterface};
use crate::object_model::{HasTibType, ObjectModel, SlotChunk, TibType};
use crate::object_model::openjdk::{arena_advanced, chunk_slots, host_cursor, host_end};
use crate::target_memory::{word_at, TargetMemory};

verus! {

broadcast use vstd::std_specs::hash::group_hash_axioms;

/// The type information of an object: its kind and its number of references.
#[derive(Debug, Clone, Copy, PartialEq, Eq, Structural)]
pub struct Tib {
    pub num_refs: u64,
    pub ttype: TibType,
}

impl HasTibType for Tib {
    open spec fn tib_type(&self) -> TibType {
        self.ttype
    }

    fn get_tib_type(&self) -> (r: TibType) {
        self.ttype
    }
}

/// Where a TIB lives in backing memory and where the host sees it.
#[derive(Debug, Clone, Copy, PartialEq, Eq, Structural)]
pub struct TibPtr {
    pub backing_storage: u64,
    pub host_ptr: u64,
}

/// Header byte that holds the scanning status.
pub const STATUS_BYTE_OFFSET: u8 = 1;
/// Header byte that holds the number of references.
pub const NUMREFS_BYTE_OFFSET: u8 = 2;
/// Status: the references must be found through the TIB.
pub const STATUS_FALLBACK: u8 = 0xff;
/// Status: no references.
pub const STATUS_NO_REF: u8 = 0;
/// Status: the number of references is in the header.
pub const STATUS_ORDINARY: u8 = 1;
/// Status: an object array.
pub const STATUS_OBJ_ARRAY: u8 = 2;
/// Bytes reserved for one TIB record in the TIB arena.
pub const TIB_BYTES: u64 = 16;

/// The header that encodes TIB `t`: zero except for the status byte and,
/// for a small positive number of references, the number itself.
pub open spec fn encoded_header(t: Tib) -> u64 {
    if t.ttype == TibType::ObjArray {
        with_byte(0, STATUS_OBJ_ARRAY, STATUS_BYTE_OFFSET as int)
    } else if t.num_refs > 255 {
        with_byte(0, STATUS_FALLBACK, STATUS_BYTE_OFFSET as int)
    } else if t.num_refs == 0 {
        with_byte(0, STATUS_NO_REF, STATUS_BYTE_OFFSET as int)
    } else {
        with_byte(
            with_byte(0, STATUS_ORDINARY, STATUS_BYTE_OFFSET as int),
            t.num_refs as u8,
            NUMREFS_BYTE_OFFSET as int,
        )
    }
}

impl Tib {
    /// The header word that encodes this TIB.
    pub fn encode_header(&self) -> (h: Header)
        requires
            self.ttype != TibType::InstanceMirror,
        ensures
            h@ == encoded_header(*self),
    {
        let mut header = Header::new();
        match self.ttype {
            TibType::ObjArray => {
                header.set_byte(STATUS_OBJ_ARRAY, STATUS_BYTE_OFFSET);
            },
            _ => {
                if self.num_refs > 255 {
                    header.set_byte(STATUS_FALLBACK, STATUS_BYTE_OFFSET);
                } else if self.num_refs == 0 {
                    header.set_byte(STATUS_NO_REF, STATUS_BYTE_OFFSET);
                } else {
                    header.set_byte(STATUS_ORDINARY, STATUS_BYTE_OFFSET);
                    header.set_byte(self.num_refs as u8, NUMREFS_BYTE_OFFSET);
                }
            },
        }
        header
    }
}

/// The slots of an object array at `o`.
pub open spec fn array_chunk(mem: Map<u64, u64>, o: u64) -> SlotChunk {
    (o.wrapping_add(24), word_at(mem, o.wrapping_add(16)))
}

/// The slots of object `o` as TIB `t` gives them.
pub open spec fn fallback_chunks(t: Tib, mem: Map<u64, u64>, o: u64) -> Seq<SlotChunk> {
    if t.ttype == TibType::ObjArray {
        seq![array_chunk(mem, o)]
    } else {
        seq![(o.wrapping_add(16), t.num_refs)]
    }
}

/// The slots of object `o` as its header gives them (`None`: the header
/// defers to the TIB).
pub open spec fn header_chunks(mem: Map<u64, u64>, o: u64) -> Option<Seq<SlotChunk>> {
    let h = word_at(mem, o);
    let status = byte_of(h, STATUS_BYTE_OFFSET as int);
    if status == STATUS_NO_REF {
        Some(Seq::empty())
    } else if status == STATUS_ORDINARY {
        Some(seq![(o.wrapping_add(16), byte_of(h, NUMREFS_BYTE_OFFSET as int) as u64)])
    } else if status == STATUS_OBJ_ARRAY {
        Some(seq![array_chunk(mem, o)])
    } else {
        None
    }
}

/// The header of object `o` carries a status this model writes.
pub open spec fn status_known(mem: Map<u64, u64>, o: u64) -> bool {
    let status = byte_of(word_at(mem, o), STATUS_BYTE_OFFSET as int);
    status == STATUS_NO_REF || status == STATUS_ORDINARY || status == STATUS_OBJ_ARRAY || status
        == STATUS_FALLBACK
}

/// The TIB pointer of object `o`.
pub open spec fn tib_of(mem: Map<u64, u64>, o: u64) -> u64 {
    word_at(mem, o.wrapping_add(8))
}

/// The header decodes to what the TIB says: whenever the status byte and
/// the reference-count byte of an object's header are those of the
/// encoding of its TIB, scanning by the header finds the slots that the TIB
/// lists.
pub proof fn lemma_header_agrees(t: Tib, mem: Map<u64, u64>, o: u64)
    requires
        t.ttype != TibType::InstanceMirror,
        byte_of(word_at(mem, o), STATUS_BYTE_OFFSET as int) == byte_of(encoded_header(t), STATUS_BYTE_OFFSET as int),
        byte_of(word_at(mem, o), NUMREFS_BYTE_OFFSET as int) == byte_of(encoded_header(t), NUMREFS_BYTE_OFFSET as int),
    ensures
        match header_chunks(mem, o) {
            Some(c) => chunk_slots(c) == chunk_slots(fallback_chunks(t, mem, o)),
            None => t.ttype == TibType::Ordinary && t.num_refs > 255,
        },
{
    if t.ttype == TibType::ObjArray {
        lemma_get_set_same(0, STATUS_OBJ_ARRAY, 1);
    } else if t.num_refs > 255 {
        lemma_get_set_same(0, STATUS_FALLBACK, 1);
    } else if t.num_refs == 0 {
        lemma_get_set_same(0, STATUS_NO_REF, 1);
        assert(chunk_slots(Seq::<SlotChunk>::empty()) =~= chunk_slots(fallback_chunks(t, mem, o)));
    } else {
        let h1 = with_byte(0, STATUS_ORDINARY, 1);
        lemma_get_set_same(0, STATUS_ORDINARY, 1);
        lemma_get_set_other(h1, t.num_refs as u8, 2, 1);
        lemma_get_set_same(h1, t.num_refs as u8, 2);
        assert(header_chunks(mem, o) == Some(fallback_chunks(t, mem, o)));
    }
}

/// An object of a heap dump that this model can move: its extent and its
/// fields lie below the address limit, and a non-array object is large
/// enough for a header word, a TIB word and its references.
pub open spec fn object_movable(obj: HeapObject) -> bool {
    &&& obj.start + obj.size < crate::object_model::openjdk::ADDRESS_LIMIT
    &&& obj.objarray_length is None ==> obj.edges@.len() * 8 + 16 <= obj.size
    &&& obj.objarray_length is Some ==> obj.start + 24 + obj.edges@.len() * 8 < crate::object_model::openjdk::ADDRESS_LIMIT
}

/// Where object `obj` is moved to.
pub open spec fn new_start_of(obj: HeapObject) -> u64 {
    if obj.objarray_length is Some {
        obj.start
    } else {
        (obj.start + obj.size - (obj.edges@.len() * 8 + 16)) as u64
    }
}

/// The moved address of reference `r` (null stays null).
pub open spec fn forwarded(fwd: Map<u64, u64>, r: u64) -> u64 {
    if r == 0 {
        0
    } else {
        fwd[r]
    }
}

/// The bidirectional object model; `HEADER` selects whether headers encode
/// the number of references.
pub struct BidirectionalObjectModel<const HEADER: bool> {
    forwarding: HashMap<u64, u64>,
    objects: Vec<u64>,
    roots: Vec<u64>,
    object_sizes: HashMap<u64, u64>,
    klass_tibs: HashMap<u64, TibPtr>,
    tib_records: HashMap<u64, Tib>,
}

impl<const HEADER: bool> BidirectionalObjectModel<HEADER> {
    /// Every TIB record is for an ordinary object or an array, and every
    /// cached klass has a record at its host pointer.
    pub closed spec fn wf(&self) -> bool {
        &&& forall|a: u64| #[trigger] self.tib_records@.contains_key(a) ==> self.tib_records@[a].ttype != TibType::InstanceMirror
        &&& forall|k: u64| #[trigger] self.klass_tibs@.contains_key(k) ==> self.tib_records@.contains_key(
            self.klass_tibs@[k].host_ptr,
        )
    }

    /// The TIB records, by host pointer.
    pub closed spec fn tibs(&self) -> Map<u64, Tib> {
        self.tib_records@
    }

    /// The cached TIB of each klass.
    pub closed spec fn klass_cache(&self) -> Map<u64, TibPtr> {
        self.klass_tibs@
    }

    /// Where each restored object was moved to, by its original start.
    pub closed spec fn forwarding_spec(&self) -> Map<u64, u64> {
        self.forwarding@
    }

    /// An empty model.
    pub fn new() -> (r: Self)
        ensures
            r.wf(),
            r.objects_spec() == Seq::<u64>::empty(),
            r.roots_spec() == Seq::<u64>::empty(),
            r.sizes_spec() == Map::<u64, u64>::empty(),
            r.tibs() == Map::<u64, Tib>::empty(),
            r.klass_cache() == Map::<u64, TibPtr>::empty(),
            r.forwarding_spec() == Map::<u64, u64>::empty(),
    {
        BidirectionalObjectModel {
            forwarding: HashMap::new(),
            objects: Vec::new(),
            roots: Vec::new(),
            object_sizes: HashMap::new(),
            klass_tibs: HashMap::new(),
            tib_records: HashMap::new(),
        }
    }

    /// The number of references that the TIB at `tib_ptr` records.
    pub fn tib_num_refs(&self, tib_ptr: u64) -> (r: u64)
        requires
            self.tibs().contains_key(tib_ptr),
        ensures
            r == self.tibs()[tib_ptr].num_refs,
    {
        self.tib_records.get(&tib_ptr).unwrap().num_refs
    }

    /// The slots of object `o` as its TIB gives them.
    fn scan_object_fallback(&self, mem: &TargetMemory, o: u64) -> (r: Vec<SlotChunk>)
        requires
            self.tibs().contains_key(tib_of(mem@, o)),
        ensures
            r@ == fallback_chunks(self.tibs()[tib_of(mem@, o)], mem@, o),
    {
        let tib_ptr = mem.load(o.wrapping_add(8));
        let tib = *self.tib_records.get(&tib_ptr).unwrap();
        let mut r: Vec<SlotChunk> = Vec::new();
        match tib.ttype {
            TibType::ObjArray => {
                let objarray_length = mem.load(o.wrapping_add(16));
                r.push((o.wrapping_add(24), objarray_length));
            },
            _ => {
                r.push((o.wrapping_add(16), tib.num_refs));
            },
        }
        r
    }

    /// The slots of object `o` as its header gives them.
    fn scan_object_header(&self, mem: &TargetMemory, o: u64) -> (r: Vec<SlotChunk>)
        requires
            status_known(mem@, o),
            header_chunks(mem@, o) is None ==> self.tibs().contains_key(tib_of(mem@, o)),
        ensures
            r@ == match header_chunks(mem@, o) {
                Some(c) => c,
                None => fallback_chunks(self.tibs()[tib_of(mem@, o)], mem@, o),
            },
    {
        let header = Header::load(mem, o);
        let status_byte = header.get_byte(STATUS_BYTE_OFFSET);
        let mut r: Vec<SlotChunk> = Vec::new();
        if status_byte == STATUS_NO_REF {
        } else if status_byte == STATUS_ORDINARY {
            let num_refs = header.get_byte(NUMREFS_BYTE_OFFSET);
            r.push((o.wrapping_add(16), num_refs as u64));
        } else if status_byte == STATUS_OBJ_ARRAY {
            let objarray_length = mem.load(o.wrapping_add(16));
            r.push((o.wrapping_add(24), objarray_length));
        } else {
            return self.scan_object_fallback(mem, o);
        }
        r
    }
}

impl<const HEADER: bool> ObjectModel for BidirectionalObjectModel<HEADER> {
    type Tib = Tib;

    open spec fn can_scan(&self, mem: Map<u64, u64>, o: u64) -> bool {
        &&& self.tibs().contains_key(tib_of(mem, o))
        &&& HEADER ==> status_known(mem, o)
    }

    open spec fn scan_chunks(&self, mem: Map<u64, u64>, o: u64) -> Seq<SlotChunk> {
        if HEADER && header_chunks(mem, o) is Some {
            header_chunks(mem, o).unwrap()
        } else {
            fallback_chunks(self.tibs()[tib_of(mem, o)], mem, o)
        }
    }

    open spec fn objarray(&self, mem: Map<u64, u64>, o: u64) -> bool {
        self.tibs()[tib_of(mem, o)].ttype == TibType::ObjArray
    }

    open spec fn lookup_required(&self, mem: Map<u64, u64>, o: u64) -> bool {
        !HEADER || byte_of(word_at(mem, o), STATUS_BYTE_OFFSET as int) == STATUS_FALLBACK
    }

    closed spec fn objects_spec(&self) -> Seq<u64> {
        self.objects@
    }

    closed spec fn roots_spec(&self) -> Seq<u64> {
        self.roots@
    }

    closed spec fn sizes_spec(&self) -> Map<u64, u64> {
        self.object_sizes@
    }

    fn scan_object(&self, mem: &TargetMemory, o: u64) -> (r: Vec<SlotChunk>) {
        if HEADER {
            self.scan_object_header(mem, o)
        } else {
            self.scan_object_fallback(mem, o)
        }
    }

    fn roots(&self) -> (r: &[u64]) {
        self.roots.as_slice()
    }

    fn objects(&self) -> (r: &[u64]) {
        self.objects.as_slice()
    }

    fn reset(&mut self) {
        self.objects.clear();
        self.forwarding.clear();
        self.roots.clear();
        self.object_sizes.clear();
    }

    fn object_sizes(&self) -> (r: &HashMap<u64, u64>) {
        &self.object_sizes
    }

    fn is_objarray(&self, mem: &TargetMemory, o: u64) -> (r: bool) {
        let tib_ptr = Self::get_tib(mem, o);
        let tib = *self.tib_records.get(&tib_ptr).unwrap();
        match tib.ttype {
            TibType::ObjArray => true,
            _ => false,
        }
    }

    fn get_tib(mem: &TargetMemory, o: u64) -> (r: u64) {
        mem.load(o.wrapping_add(8))
    }

    fn tib_lookup_required(&self, mem: &TargetMemory, o: u64) -> (r: bool) {
        if HEADER {
            let header = Header::load(mem, o);
            let status_byte = header.get_byte(STATUS_BYTE_OFFSET);
            status_byte == STATUS_FALLBACK
        } else {
            true
        }
    }

    open spec fn knows_tib(&self, tib: u64) -> bool {
        self.tibs().contains_key(tib)
    }

    open spec fn tib_kind(&self, tib: u64) -> TibType {
        self.tibs()[tib].ttype
    }

    fn tib_type_at(&self, tib: u64) -> (r: TibType) {
        self.tib_records.get(&tib).unwrap().ttype
    }

    proof fn lemma_scannable_tib(&self, mem: Map<u64, u64>, o: u64) {
    }
}


/// The arena has room for `n` more TIB records, and its addresses are not null.
pub open spec fn arena_room(arena: BumpAllocationArena, n: nat) -> bool {
    &&& arena.cursor() + n * (TIB_BYTES + arena.alignment()) <= arena.limit()
    &&& TIB_BYTES + arena.alignment() - 1 <= usize::MAX
    &&& arena.host_base() > 0
    &&& arena.alignment() > 0
}

proof fn lemma_room_after_alloc(before: BumpAllocationArena, after: BumpAllocationArena, n: nat)
    requires
        arena_room(before, n + 1),
        arena_advanced(before, after),
        after.cursor() <= before.cursor() + TIB_BYTES + before.alignment(),
    ensures
        arena_room(after, n),
{
    let per = TIB_BYTES + before.alignment();
    assert((n + 1) * per == n * per + per) by (nonlinear_arith);
}

proof fn lemma_room_monotone(arena: BumpAllocationArena, n: nat, m: nat)
    requires
        arena_room(arena, n),
        m <= n,
    ensures
        arena_room(arena, m),
{
    let per = TIB_BYTES + arena.alignment();
    assert(m * per <= n * per) by (nonlinear_arith)
        requires
            m <= n,
            per >= 0,
    ;
}

/// A TIB record for the non-array object `obj`.
pub open spec fn ordinary_tib(obj: HeapObject) -> Tib {
    Tib { num_refs: obj.edges@.len() as u64, ttype: TibType::Ordinary }
}

/// How far the arena cursor moves for one TIB: its size rounded up to
/// the arena's alignment.
pub open spec fn tib_step(arena: BumpAllocationArena) -> int {
    align_up_spec(TIB_BYTES as int, arena.alignment() as int)
}

/// An instance mirror: a non-array object with mirrored static fields,
/// which gets a TIB of its own.
pub open spec fn is_mirror(o: HeapObject) -> bool {
    o.objarray_length is None && o.instance_mirror_start is Some
}

/// Restoring the `p`-th object of `objs`, with `cache` the klass cache
/// before the first, places a new TIB: a mirror always does; any other
/// object when its klass is neither cached nor the klass of an earlier
/// object that is no mirror.
pub open spec fn places_tib(cache: Map<u64, TibPtr>, objs: Seq<HeapObject>, p: int) -> bool {
    ||| is_mirror(objs[p])
    ||| !cache.contains_key(objs[p].klass) && !(exists|e: int| 0 <= e < p && !is_mirror(#[trigger] objs[e]) && objs[e].klass
        == objs[p].klass)
}

/// How many of the first `p` objects place a new TIB.
pub open spec fn placed_before(cache: Map<u64, TibPtr>, objs: Seq<HeapObject>, p: nat) -> nat
    decreases p,
{
    if p == 0 {
        0
    } else {
        placed_before(cache, objs, (p - 1) as nat) + if places_tib(cache, objs, p - 1) { 1nat } else { 0nat }
    }
}

impl<const HEADER: bool> BidirectionalObjectModel<HEADER> {
    /// No TIB record lies in the free part of `arena`.
    pub open spec fn records_clear(&self, arena: BumpAllocationArena) -> bool {
        forall|a: u64| #[trigger] self.tibs().contains_key(a) ==> a < host_cursor(arena) || a >= host_end(arena)
    }

    /// Places `tib` in the arena.
    fn alloc_tib(&mut self, tib: Tib, arena: &mut BumpAllocationArena) -> (r: TibPtr)
        requires
            old(self).wf(),
            tib.ttype != TibType::InstanceMirror,
            arena_room(*old(arena), 1),
        ensures
            final(self).wf(),
            final(self).tibs() == old(self).tibs().insert(r.host_ptr, tib),
            final(self).klass_cache() == old(self).klass_cache(),
            final(self).forwarding_spec() == old(self).forwarding_spec(),
            final(self).objects_spec() == old(self).objects_spec(),
            final(self).roots_spec() == old(self).roots_spec(),
            final(self).sizes_spec() == old(self).sizes_spec(),
            r.host_ptr != 0,
            arena_advanced(*old(arena), *final(arena)),
            final(arena).cursor() <= old(arena).cursor() + TIB_BYTES + old(arena).alignment(),
            old(arena).host_base() <= r.host_ptr < host_end(*old(arena)),
            host_cursor(*old(arena)) <= r.host_ptr < host_cursor(*final(arena)),
            r.host_ptr == host_cursor(*old(arena)),
            final(arena).cursor() == old(arena).cursor() + tib_step(*old(arena)),
    {
        let ghost before = *arena;
        let (backing_storage, host_ptr) = arena.allocate(TIB_BYTES as usize);
        proof {
            crate::memif::lemma_align_up_bound(TIB_BYTES as int, before.alignment() as int);
        }
        self.tib_records.insert(host_ptr, tib);
        TibPtr { backing_storage, host_ptr }
    }

    /// The TIB cached for `klass`, placing `tib` first if there is none.
    fn insert_with_cache(&mut self, klass: u64, tib: Tib, arena: &mut BumpAllocationArena) -> (r: TibPtr)
        requires
            old(self).wf(),
            tib.ttype != TibType::InstanceMirror,
            arena_room(*old(arena), 1),
        ensures
            final(self).wf(),
            final(self).klass_cache() == old(self).klass_cache().insert(klass, r),
            old(self).klass_cache().contains_key(klass) ==> r == old(self).klass_cache()[klass]
                && final(self).tibs() == old(self).tibs() && *final(arena) == *old(arena),
            !old(self).klass_cache().contains_key(klass) ==> final(self).tibs() == old(self).tibs().insert(r.host_ptr, tib)
                && old(arena).host_base() <= r.host_ptr < host_end(*old(arena))
                && host_cursor(*old(arena)) <= r.host_ptr < host_cursor(*final(arena))
                && r.host_ptr == host_cursor(*old(arena))
                && final(arena).cursor() == old(arena).cursor() + tib_step(*old(arena)),
            final(self).tibs().contains_key(r.host_ptr),
            final(self).forwarding_spec() == old(self).forwarding_spec(),
            final(self).objects_spec() == old(self).objects_spec(),
            final(self).roots_spec() == old(self).roots_spec(),
            final(self).sizes_spec() == old(self).sizes_spec(),
            arena_advanced(*old(arena), *final(arena)),
            final(arena).cursor() <= old(arena).cursor() + TIB_BYTES + old(arena).alignment(),
    {
        match self.klass_tibs.get(&klass) {
            Some(p) => {
                return *p;
            },
            None => {},
        }
        let r = self.alloc_tib(tib, arena);
        self.klass_tibs.insert(klass, r);
        r
    }

    /// The (cached) TIB of object arrays of `klass`.
    fn objarray(&mut self, klass: u64, arena: &mut BumpAllocationArena) -> (r: TibPtr)
        requires
            old(self).wf(),
            arena_room(*old(arena), 1),
        ensures
            final(self).wf(),
            final(self).klass_cache() == old(self).klass_cache().insert(klass, r),
            old(self).klass_cache().contains_key(klass) ==> r == old(self).klass_cache()[klass]
                && final(self).tibs() == old(self).tibs() && *final(arena) == *old(arena),
            !old(self).klass_cache().contains_key(klass) ==> final(self).tibs() == old(self).tibs().insert(
                r.host_ptr,
                Tib { num_refs: 0, ttype: TibType::ObjArray },
            ) && old(arena).host_base() <= r.host_ptr < host_end(*old(arena))
                && host_cursor(*old(arena)) <= r.host_ptr < host_cursor(*final(arena))
                && r.host_ptr == host_cursor(*old(arena))
                && final(arena).cursor() == old(arena).cursor() + tib_step(*old(arena)),
            final(self).tibs().contains_key(r.host_ptr),
            final(self).forwarding_spec() == old(self).forwarding_spec(),
            final(self).objects_spec() == old(self).objects_spec(),
            final(self).roots_spec() == old(self).roots_spec(),
            final(self).sizes_spec() == old(self).sizes_spec(),
            arena_advanced(*old(arena), *final(arena)),
            final(arena).cursor() <= old(arena).cursor() + TIB_BYTES + old(arena).alignment(),
    {
        self.insert_with_cache(klass, Tib { ttype: TibType::ObjArray, num_refs: 0 }, arena)
    }

    /// The TIB of the non-array object `obj` of `klass`: cached per klass,
    /// except for instance mirrors, which get a record of their own.
    fn non_objarray(&mut self, klass: u64, obj: &HeapObject, arena: &mut BumpAllocationArena) -> (r: TibPtr)
        requires
            old(self).wf(),
            arena_room(*old(arena), 1),
        ensures
            final(self).wf(),
            obj.instance_mirror_start is None ==> final(self).klass_cache() == old(self).klass_cache().insert(klass, r)
                && (old(self).klass_cache().contains_key(klass) ==> r == old(self).klass_cache()[klass]
                && final(self).tibs() == old(self).tibs() && *final(arena) == *old(arena)),
            obj.instance_mirror_start is Some ==> final(self).klass_cache() == old(self).klass_cache(),
            (obj.instance_mirror_start is Some || !old(self).klass_cache().contains_key(klass)) ==> final(self).tibs()
                == old(self).tibs().insert(r.host_ptr, ordinary_tib(*obj)) && old(arena).host_base() <= r.host_ptr
                < host_end(*old(arena)) && host_cursor(*old(arena)) <= r.host_ptr < host_cursor(*final(arena))
                && r.host_ptr == host_cursor(*old(arena))
                && final(arena).cursor() == old(arena).cursor() + tib_step(*old(arena)),
            final(self).tibs().contains_key(r.host_ptr),
            final(self).forwarding_spec() == old(self).forwarding_spec(),
            final(self).objects_spec() == old(self).objects_spec(),
            final(self).roots_spec() == old(self).roots_spec(),
            final(self).sizes_spec() == old(self).sizes_spec(),
            arena_advanced(*old(arena), *final(arena)),
            final(arena).cursor() <= old(arena).cursor() + TIB_BYTES + old(arena).alignment(),
    {
        let tib = Tib { ttype: TibType::Ordinary, num_refs: obj.edges.len() as u64 };
        if obj.instance_mirror_start.is_some() {
            self.alloc_tib(tib, arena)
        } else {
            self.insert_with_cache(klass, tib, arena)
        }
    }

    /// Places the TIB of every klass of `heapdump` that has none yet
    /// (instance mirrors excepted) and returns how many were placed.
    pub fn restore_tibs(&mut self, heapdump: &HeapDump, tib_arena: &mut BumpAllocationArena) -> (r: usize)
        requires
            old(self).wf(),
            old(self).records_clear(*old(tib_arena)),
            arena_room(*old(tib_arena), heapdump.objects@.len()),
        ensures
            final(self).wf(),
            final(self).records_clear(*final(tib_arena)),
            r == final(self).klass_cache().len() - old(self).klass_cache().len(),
            forall|k: u64| #[trigger] old(self).klass_cache().contains_key(k) ==> final(self).klass_cache().contains_key(k)
                && final(self).klass_cache()[k] == old(self).klass_cache()[k],
            forall|i: int|
                0 <= i < heapdump.objects@.len() && (heapdump.objects@[i].objarray_length is Some
                    || heapdump.objects@[i].instance_mirror_start is None) ==> final(self).klass_cache().contains_key(
                    #[trigger] heapdump.objects@[i].klass,
                ),
            forall|k: u64| #[trigger] final(self).klass_cache().contains_key(k) && !old(self).klass_cache().contains_key(k)
                ==> old(tib_arena).host_base() <= final(self).klass_cache()[k].host_ptr < host_end(*old(tib_arena)),
            forall|k: u64| #[trigger] final(self).klass_cache().contains_key(k) ==> old(self).klass_cache().contains_key(k)
                || exists|i: int|
                0 <= i < heapdump.objects@.len() && (#[trigger] heapdump.objects@[i]).klass == k && (
                heapdump.objects@[i].objarray_length is Some || heapdump.objects@[i].instance_mirror_start is None),
            final(self).forwarding_spec() == old(self).forwarding_spec(),
            final(self).objects_spec() == old(self).objects_spec(),
            final(self).roots_spec() == old(self).roots_spec(),
            final(self).sizes_spec() == old(self).sizes_spec(),
            arena_advanced(*old(tib_arena), *final(tib_arena)),
    {
        let before_size = self.klass_tibs.len();
        let ghost n = heapdump.objects@.len();
        let mut i: usize = 0;
        while i < heapdump.objects.len()
            invariant
                self.wf(),
                self.records_clear(*tib_arena),
                forall|k: u64| #[trigger] self.klass_cache().contains_key(k) && !old(self).klass_cache().contains_key(k)
                    ==> old(tib_arena).host_base() <= self.klass_cache()[k].host_ptr < host_end(*old(tib_arena)),
                n == heapdump.objects@.len(),
                i <= n,
                arena_room(*tib_arena, (n - i) as nat),
                arena_advanced(*old(tib_arena), *tib_arena),
                before_size == old(self).klass_cache().len(),
                forall|k: u64| #[trigger] old(self).klass_cache().contains_key(k) ==> self.klass_cache().contains_key(k)
                    && self.klass_cache()[k] == old(self).klass_cache()[k],
                forall|j: int|
                    0 <= j < i && (heapdump.objects@[j].objarray_length is Some
                        || heapdump.objects@[j].instance_mirror_start is None) ==> self.klass_cache().contains_key(
                        #[trigger] heapdump.objects@[j].klass,
                    ),
                forall|k: u64| #[trigger] self.klass_cache().contains_key(k) ==> old(self).klass_cache().contains_key(k)
                    || exists|j: int|
                    0 <= j < n && (#[trigger] heapdump.objects@[j]).klass == k && (heapdump.objects@[j].objarray_length
                        is Some || heapdump.objects@[j].instance_mirror_start is None),
                self.forwarding_spec() == old(self).forwarding_spec(),
                self.objects_spec() == old(self).objects_spec(),
                self.roots_spec() == old(self).roots_spec(),
                self.sizes_spec() == old(self).sizes_spec(),
            decreases n - i,
        {
            let object = &heapdump.objects[i];
            let ghost arena_before = *tib_arena;
            let ghost self_before = *self;
            proof {
                lemma_room_monotone(*tib_arena, (n - i) as nat, 1);
            }
            if object.objarray_length.is_some() {
                let _tib = self.objarray(object.klass, tib_arena);
            } else if object.instance_mirror_start.is_none() {
                let _tib = self.non_objarray(object.klass, object, tib_arena);
            }
            proof {
                assert forall|k: u64| #[trigger] self.klass_cache().contains_key(k) implies old(self).klass_cache().contains_key(k)
                    || exists|j: int|
                    0 <= j < n && (#[trigger] heapdump.objects@[j]).klass == k && (heapdump.objects@[j].objarray_length
                        is Some || heapdump.objects@[j].instance_mirror_start is None) by {
                    if !self_before.klass_cache().contains_key(k) {
                        assert(heapdump.objects@[i as int].klass == k);
                    }
                }
                lemma_room_after_alloc(arena_before, *tib_arena, (n - i - 1) as nat);
                assert(host_cursor(*tib_arena) <= host_end(*tib_arena));
                assert forall|a: u64| #[trigger] self.tibs().contains_key(a) implies a < host_cursor(*tib_arena)
                    || a >= host_end(*tib_arena) by {
                    if self_before.tibs().contains_key(a) {
                        assert(a < host_cursor(arena_before) || a >= host_end(arena_before));
                    }
                }
            }
            i += 1;
        }
        proof {
            vstd::std_specs::hash::axiom_hashmap_view_finite_dom(self.klass_tibs);
            vstd::std_specs::hash::axiom_hashmap_view_finite_dom(old(self).klass_tibs);
            assert(old(self).klass_cache().dom().subset_of(self.klass_cache().dom()));
            vstd::set_lib::lemma_len_subset(old(self).klass_cache().dom(), self.klass_cache().dom());
        }
        let after_size = self.klass_tibs.len();
        after_size - before_size
    }
}


/// The forwarding map after recording the first `n` objects.
pub open spec fn forwarding_after(m: Map<u64, u64>, objs: Seq<HeapObject>, n: nat) -> Map<u64, u64>
    decreases n,
{
    if n == 0 {
        m
    } else {
        forwarding_after(m, objs, (n - 1) as nat).insert(objs[n - 1].start, new_start_of(objs[n - 1]))
    }
}

/// The sizes map after recording the first `n` objects at their new starts.
pub open spec fn sizes_after(m: Map<u64, u64>, objs: Seq<HeapObject>, fwd: Map<u64, u64>, n: nat) -> Map<u64, u64>
    decreases n,
{
    if n == 0 {
        m
    } else {
        sizes_after(m, objs, fwd, (n - 1) as nat).insert(fwd[objs[n - 1].start], objs[n - 1].size)
    }
}

/// The target value of host pointer `p`; null stays null.
pub open spec fn target_value<M: MemoryInterface>(memif: &M, p: u64) -> u64 {
    if p == 0 {
        0
    } else {
        memif.target_address(p)
    }
}

/// Memory `m` after writing the first `n` moved references of `edges`
/// to consecutive slots from `cursor`.
pub open spec fn write_refs<M: MemoryInterface>(
    m: Map<u64, u64>,
    memif: &M,
    edges: Seq<crate::heapdump::NormalEdge>,
    fwd: Map<u64, u64>,
    cursor: u64,
    n: nat,
) -> Map<u64, u64>
    decreases n,
{
    if n == 0 {
        m
    } else {
        write_refs(m, memif, edges, fwd, cursor, (n - 1) as nat).insert(
            memif.backing_address((cursor + 8 * (n - 1)) as u64),
            target_value(memif, forwarded(fwd, edges[n - 1].objref)),
        )
    }
}

/// Memory `m` after restoring `obj` at its new start with TIB `tib`: the
/// encoded header (when headers are used), the TIB pointer, the array
/// length of an array, then the moved references.
pub open spec fn write_object<M: MemoryInterface>(
    m: Map<u64, u64>,
    memif: &M,
    header: bool,
    obj: HeapObject,
    tib: TibPtr,
    rec: Tib,
    fwd: Map<u64, u64>,
) -> Map<u64, u64> {
    let ns = fwd[obj.start];
    let m0 = if header {
        m.insert(memif.backing_address(ns), encoded_header(rec))
    } else {
        m
    };
    let m1 = m0.insert(memif.backing_address((ns + 8) as u64), target_value(memif, tib.host_ptr));
    let m2 = match obj.objarray_length {
        Some(l) => m1.insert(memif.backing_address((ns + 16) as u64), l),
        None => m1,
    };
    let cursor = if obj.objarray_length is Some { (ns + 24) as u64 } else { (ns + 16) as u64 };
    write_refs(m2, memif, obj.edges@, fwd, cursor, obj.edges@.len())
}

/// Memory `m` after restoring the first `n` objects with TIBs `tibs`.
pub open spec fn restore_memory<M: MemoryInterface>(
    m: Map<u64, u64>,
    memif: &M,
    header: bool,
    objs: Seq<HeapObject>,
    tibs: Seq<TibPtr>,
    recs: Map<u64, Tib>,
    fwd: Map<u64, u64>,
    n: nat,
) -> Map<u64, u64>
    decreases n,
{
    if n == 0 {
        m
    } else {
        write_object(
            restore_memory(m, memif, header, objs, tibs, recs, fwd, (n - 1) as nat),
            memif,
            header,
            objs[n - 1],
            tibs[n - 1],
            recs[tibs[n - 1].host_ptr],
            fwd,
        )
    }
}

proof fn lemma_restore_memory_prefix<M: MemoryInterface>(
    m: Map<u64, u64>,
    memif: &M,
    header: bool,
    objs: Seq<HeapObject>,
    t1: Seq<TibPtr>,
    t2: Seq<TibPtr>,
    r1: Map<u64, Tib>,
    r2: Map<u64, Tib>,
    fwd: Map<u64, u64>,
    n: nat,
)
    requires
        n <= t1.len(),
        n <= t2.len(),
        forall|i: int| 0 <= i < n ==> t1[i] == t2[i] && r1[t1[i].host_ptr] == r2[t2[i].host_ptr],
    ensures
        restore_memory(m, memif, header, objs, t1, r1, fwd, n) == restore_memory(m, memif, header, objs, t2, r2, fwd, n),
    decreases n,
{
    if n > 0 {
        lemma_restore_memory_prefix(m, memif, header, objs, t1, t2, r1, r2, fwd, (n - 1) as nat);
    }
}

/// Every object start of `objs`.
pub open spec fn is_object_start(objs: Seq<HeapObject>, a: u64) -> bool {
    exists|q: int| 0 <= q < objs.len() && (#[trigger] objs[q]).start == a
}

/// Every word that restoring `obj` writes, and where it points, is known
/// to `memif`.
pub open spec fn object_translatable<M: MemoryInterface>(memif: &M, header: bool, obj: HeapObject) -> bool {
    let ns = new_start_of(obj);
    &&& memif.translatable(ns)
    &&& memif.translatable((ns + 8) as u64)
    &&& obj.objarray_length is Some ==> memif.translatable((ns + 16) as u64)
    &&& forall|j: int| 0 <= j < obj.edges@.len() ==> #[trigger] memif.translatable(ref_slot(obj, j))
}

/// Where the `j`-th reference of `obj` goes once the object is moved.
pub open spec fn ref_slot(obj: HeapObject, j: int) -> u64 {
    let ns = new_start_of(obj);
    (if obj.objarray_length is Some { ns + 24 + 8 * j } else { ns + 16 + 8 * j }) as u64
}

/// A heap dump that this model can move and restore with `memif`: every
/// root and every non-null reference is an object of the dump.
pub open spec fn dump_restorable<M: MemoryInterface>(memif: &M, header: bool, hd: HeapDump) -> bool {
    &&& forall|i: int|
        0 <= i < hd.objects@.len() ==> object_movable(#[trigger] hd.objects@[i]) && object_translatable(
            memif,
            header,
            hd.objects@[i],
        )
    &&& forall|i: int, j: int|
        0 <= i < j < hd.objects@.len() ==> (#[trigger] hd.objects@[i]).start != (#[trigger] hd.objects@[j]).start
    &&& forall|r: int| 0 <= r < hd.roots@.len() ==> is_object_start(hd.objects@, (#[trigger] hd.roots@[r]).objref)
    &&& forall|i: int, j: int|
        0 <= i < hd.objects@.len() && 0 <= j < hd.objects@[i].edges@.len() && (#[trigger] hd.objects@[i].edges@[j]).objref
            != 0 ==> is_object_start(hd.objects@, hd.objects@[i].edges@[j].objref)
}

proof fn lemma_forwarding_after<M: MemoryInterface>(
    memif: &M,
    header: bool,
    m: Map<u64, u64>,
    objs: Seq<HeapObject>,
    n: nat,
    a: u64,
)
    requires
        n <= objs.len(),
        forall|i: int| 0 <= i < objs.len() ==> object_movable(#[trigger] objs[i]) && object_translatable(memif, header, objs[i]),
        exists|q: int| 0 <= q < n && (#[trigger] objs[q]).start == a,
    ensures
        forwarding_after(m, objs, n).contains_key(a),
        memif.translatable(forwarding_after(m, objs, n)[a]),
        forwarding_after(m, objs, n)[a] != 0 || memif.translatable(0),
    decreases n,
{
    if objs[n - 1].start != a {
        lemma_forwarding_after(memif, header, m, objs, (n - 1) as nat, a);
    } else {
        assert(object_translatable(memif, header, objs[n - 1]));
    }
}

proof fn lemma_forwarding_value(m: Map<u64, u64>, objs: Seq<HeapObject>, n: nat, q: int)
    requires
        n <= objs.len(),
        0 <= q < n,
        forall|i: int, j: int| 0 <= i < j < objs.len() ==> (#[trigger] objs[i]).start != (#[trigger] objs[j]).start,
    ensures
        forwarding_after(m, objs, n)[objs[q].start] == new_start_of(objs[q]),
    decreases n,
{
    if q < n - 1 {
        assert(objs[q].start != objs[n - 1].start);
        lemma_forwarding_value(m, objs, (n - 1) as nat, q);
    }
}

impl<const HEADER: bool> BidirectionalObjectModel<HEADER> {
    /// TIB `t` is the one that restoring `obj` uses: a mirror has a record
    /// of its own; any other object the one cached for its klass.
    pub open spec fn describes(&self, t: TibPtr, obj: HeapObject) -> bool {
        &&& self.tibs().contains_key(t.host_ptr)
        &&& if obj.objarray_length is None && obj.instance_mirror_start is Some {
            self.tibs()[t.host_ptr] == ordinary_tib(obj)
        } else {
            self.klass_cache().contains_key(obj.klass) && self.klass_cache()[obj.klass] == t
        }
    }

    /// Every cached TIB is known to `memif`.
    pub open spec fn cache_translatable<M: MemoryInterface>(&self, memif: &M) -> bool {
        forall|k: u64| #[trigger] self.klass_cache().contains_key(k) ==> memif.translatable(self.klass_cache()[k].host_ptr)
    }

    /// Moves the objects of `heapdump` and writes them into `mem` through
    /// `memif`: non-array objects are moved to the end of their extent with
    /// their references grouped after the header and TIB words; arrays stay.
    /// Objects are recorded in dump order at their new starts; roots and
    /// references are moved along.
    pub fn restore_objects<M: MemoryInterface>(
        &mut self,
        heapdump: &HeapDump,
        memif: &M,
        mem: &mut TargetMemory,
        tib_arena: &mut BumpAllocationArena,
    )
        requires
            old(self).wf(),
            old(self).records_clear(*old(tib_arena)),
            old(self).cache_translatable(memif),
            arena_room(*old(tib_arena), heapdump.objects@.len()),
            crate::object_model::openjdk::arena_translatable(memif, *old(tib_arena)),
            dump_restorable(memif, HEADER, *heapdump),
        ensures
            final(self).wf(),
            final(self).records_clear(*final(tib_arena)),
            final(self).cache_translatable(memif),
            final(self).forwarding_spec() == forwarding_after(
                old(self).forwarding_spec(),
                heapdump.objects@,
                heapdump.objects@.len(),
            ),
            final(self).objects_spec() == old(self).objects_spec() + heapdump.objects@.map_values(
                |o: HeapObject| final(self).forwarding_spec()[o.start],
            ),
            final(self).roots_spec() == old(self).roots_spec() + heapdump.roots@.map_values(
                |r: RootEdge| final(self).forwarding_spec()[r.objref],
            ),
            final(self).sizes_spec() == sizes_after(
                old(self).sizes_spec(),
                heapdump.objects@,
                final(self).forwarding_spec(),
                heapdump.objects@.len(),
            ),
            exists|tibs: Seq<TibPtr>|
                #![trigger restore_memory(old(mem)@, memif, HEADER, heapdump.objects@, tibs, final(self).tibs(), final(self).forwarding_spec(), heapdump.objects@.len())]
                tibs.len() == heapdump.objects@.len()
                && (forall|i: int| 0 <= i < tibs.len() ==> #[trigger] final(self).describes(tibs[i], heapdump.objects@[i]))
                && (forall|i: int|
                    0 <= i < tibs.len() && places_tib(old(self).klass_cache(), heapdump.objects@, i) ==> (#[trigger] tibs[i]).host_ptr
                        == host_cursor(*old(tib_arena)) + placed_before(old(self).klass_cache(), heapdump.objects@, i as nat)
                        * tib_step(*old(tib_arena)))
                && final(mem)@ == restore_memory(
                    old(mem)@,
                    memif,
                    HEADER,
                    heapdump.objects@,
                    tibs,
                    final(self).tibs(),
                    final(self).forwarding_spec(),
                    heapdump.objects@.len(),
                ),
            forall|k: u64| #[trigger] old(self).klass_cache().contains_key(k) ==> final(self).klass_cache().contains_key(k)
                && final(self).klass_cache()[k] == old(self).klass_cache()[k],
            final(tib_arena).cursor() == old(tib_arena).cursor() + placed_before(
                old(self).klass_cache(),
                heapdump.objects@,
                heapdump.objects@.len(),
            ) * tib_step(*old(tib_arena)),
            arena_advanced(*old(tib_arena), *final(tib_arena)),
    {
        let ghost objs = heapdump.objects@;
        let ghost c0 = old(self).klass_cache();
        let n = heapdump.objects.len();
        // First pass: where each object moves to.
        let mut i: usize = 0;
        while i < n
            invariant
                n == objs.len(),
                objs == heapdump.objects@,
                i <= n,
                dump_restorable(memif, HEADER, *heapdump),
                self.forwarding_spec() == forwarding_after(old(self).forwarding_spec(), objs, i as nat),
                self.objects_spec() == old(self).objects_spec(),
                self.roots_spec() == old(self).roots_spec(),
                self.sizes_spec() == old(self).sizes_spec(),
                self.tibs() == old(self).tibs(),
                self.klass_cache() == old(self).klass_cache(),
                self.wf(),
            decreases n - i,
        {
            let object = &heapdump.objects[i];
            assert(objs[i as int] == *object);
            assert(object_movable(*object));
            let new_start = if object.objarray_length.is_some() {
                object.start
            } else {
                object.start + object.size - (object.edges.len() as u64 * 8 + 16)
            };
            self.forwarding.insert(object.start, new_start);
            i += 1;
        }
        let ghost fwd = self.forwarding_spec();
        proof {
            assert forall|a: u64| is_object_start(objs, a) implies fwd.contains_key(a) && memif.translatable(fwd[a]) by {
                lemma_forwarding_after(memif, HEADER, old(self).forwarding_spec(), objs, n as nat, a);
            }
        }
        let mut k: usize = 0;
        while k < n
            invariant
                n == objs.len(),
                objs == heapdump.objects@,
                k <= n,
                dump_restorable(memif, HEADER, *heapdump),
                forall|a: u64| is_object_start(objs, a) ==> fwd.contains_key(a) && memif.translatable(fwd[a]),
                fwd == forwarding_after(old(self).forwarding_spec(), objs, n as nat),
                self.forwarding_spec() == fwd,
                self.objects_spec() == old(self).objects_spec() + objs.subrange(0, k as int).map_values(
                    |o: HeapObject| fwd[o.start],
                ),
                self.roots_spec() == old(self).roots_spec(),
                self.sizes_spec() == old(self).sizes_spec(),
                self.tibs() == old(self).tibs(),
                self.klass_cache() == old(self).klass_cache(),
                self.wf(),
            decreases n - k,
        {
            let start = heapdump.objects[k].start;
            proof {
                assert(objs[k as int].start == start);
                assert(is_object_start(objs, start));
            }
            let new_start = *self.forwarding.get(&start).unwrap();
            self.objects.push(new_start);
            proof {
                assert(objs.subrange(0, k + 1) == objs.subrange(0, k as int).push(objs[k as int]));
            }
            k += 1;
        }
        assert(objs.subrange(0, n as int) == objs);
        let nr = heapdump.roots.len();
        let mut j: usize = 0;
        while j < nr
            invariant
                nr == heapdump.roots@.len(),
                objs == heapdump.objects@,
                j <= nr,
                dump_restorable(memif, HEADER, *heapdump),
                forall|a: u64| is_object_start(objs, a) ==> fwd.contains_key(a) && memif.translatable(fwd[a]),
                fwd == forwarding_after(old(self).forwarding_spec(), objs, n as nat),
                self.forwarding_spec() == fwd,
                self.objects_spec() == old(self).objects_spec() + objs.map_values(|o: HeapObject| fwd[o.start]),
                self.roots_spec() == old(self).roots_spec() + heapdump.roots@.subrange(0, j as int).map_values(
                    |r: RootEdge| fwd[r.objref],
                ),
                self.sizes_spec() == old(self).sizes_spec(),
                self.tibs() == old(self).tibs(),
                self.klass_cache() == old(self).klass_cache(),
                self.wf(),
            decreases nr - j,
        {
            let objref = heapdump.roots[j].objref;
            proof {
                assert(heapdump.roots@[j as int].objref == objref);
                assert(is_object_start(objs, objref));
            }
            let new_root = *self.forwarding.get(&objref).unwrap();
            self.roots.push(new_root);
            proof {
                assert(heapdump.roots@.subrange(0, j + 1) == heapdump.roots@.subrange(0, j as int).push(
                    heapdump.roots@[j as int],
                ));
            }
            j += 1;
        }
        assert(heapdump.roots@.subrange(0, nr as int) == heapdump.roots@);
        // Second pass: write each object out.
        let ghost mut tibs: Seq<TibPtr> = Seq::empty();
        let ghost arena0 = *tib_arena;
        proof {
            assert(placed_before(c0, objs, 0) == 0);
            assert(0 * tib_step(arena0) == 0);
        }
        let mut q: usize = 0;
        while q < n
            invariant
                n == objs.len(),
                objs == heapdump.objects@,
                q <= n,
                dump_restorable(memif, HEADER, *heapdump),
                forall|a: u64| is_object_start(objs, a) ==> fwd.contains_key(a) && memif.translatable(fwd[a]),
                fwd == forwarding_after(old(self).forwarding_spec(), objs, n as nat),
                self.forwarding_spec() == fwd,
                self.objects_spec() == old(self).objects_spec() + objs.map_values(|o: HeapObject| fwd[o.start]),
                self.roots_spec() == old(self).roots_spec() + heapdump.roots@.map_values(|r: RootEdge| fwd[r.objref]),
                self.sizes_spec() == sizes_after(old(self).sizes_spec(), objs, fwd, q as nat),
                self.wf(),
                self.records_clear(*tib_arena),
                self.cache_translatable(memif),
                arena_room(*tib_arena, (n - q) as nat),
                arena_advanced(arena0, *tib_arena),
                arena0 == *old(tib_arena),
                crate::object_model::openjdk::arena_translatable(memif, arena0),
                tibs.len() == q,
                forall|p: int| 0 <= p < q ==> #[trigger] self.describes(tibs[p], objs[p]),
                forall|p: int| 0 <= p < q ==> (#[trigger] tibs[p]).host_ptr < host_cursor(*tib_arena) || tibs[p].host_ptr >= host_end(*tib_arena),
                mem@ == restore_memory(old(mem)@, memif, HEADER, objs, tibs, self.tibs(), fwd, q as nat),
                c0 == old(self).klass_cache(),
                tib_arena.cursor() == arena0.cursor() + placed_before(c0, objs, q as nat) * tib_step(arena0),
                forall|k: u64| #[trigger] c0.contains_key(k) ==> self.klass_cache().contains_key(k) && self.klass_cache()[k]
                    == c0[k],
                forall|k: u64| #[trigger] self.klass_cache().contains_key(k) ==> c0.contains_key(k) || exists|e: int|
                    0 <= e < q && !is_mirror(#[trigger] objs[e]) && objs[e].klass == k,
                forall|p: int| 0 <= p < q && places_tib(c0, objs, p) ==> (#[trigger] tibs[p]).host_ptr == host_cursor(arena0)
                    + placed_before(c0, objs, p as nat) * tib_step(arena0),
            decreases n - q,
        {
            let object = &heapdump.objects[q];
            assert(objs[q as int] == *object);
            assert(object_movable(*object) && object_translatable(memif, HEADER, *object));
            let ghost arena_before = *tib_arena;
            let ghost self_before = *self;
            proof {
                lemma_room_monotone(*tib_arena, (n - q) as nat, 1);
                assert(is_object_start(objs, object.start));
            }
            let is_objarray = object.objarray_length.is_some();
            let tib_ptr = if is_objarray {
                self.objarray(object.klass, tib_arena)
            } else {
                self.non_objarray(object.klass, object, tib_arena)
            };
            proof {
                lemma_room_after_alloc(arena_before, *tib_arena, (n - q - 1) as nat);
                assert(host_cursor(*tib_arena) <= host_end(*tib_arena));
                assert(memif.translatable(tib_ptr.host_ptr)) by {
                    if !(arena_before.host_base() <= tib_ptr.host_ptr < host_end(arena_before)) {
                        assert(self_before.klass_cache().contains_key(object.klass));
                        assert(self_before.klass_cache()[object.klass] == tib_ptr);
                    }
                }
                assert forall|kk: u64| #[trigger] self.klass_cache().contains_key(kk) implies memif.translatable(
                    self.klass_cache()[kk].host_ptr,
                ) by {
                    if !self_before.klass_cache().contains_key(kk) {
                        assert(self.klass_cache()[kk] == tib_ptr);
                    }
                }
                assert forall|a: u64| #[trigger] self.tibs().contains_key(a) implies a < host_cursor(*tib_arena)
                    || a >= host_end(*tib_arena) by {
                    if self_before.tibs().contains_key(a) {
                        assert(a < host_cursor(arena_before) || a >= host_end(arena_before));
                    }
                }
            }
            proof {
                let pb = placed_before(c0, objs, q as nat);
                let step = tib_step(arena0);
                assert(tib_step(arena_before) == step);
                assert(placed_before(c0, objs, (q + 1) as nat) == pb + if places_tib(c0, objs, q as int) {
                    1nat
                } else {
                    0nat
                });
                if places_tib(c0, objs, q as int) {
                    if !is_mirror(objs[q as int]) && self_before.klass_cache().contains_key(object.klass) {
                        assert(c0.contains_key(object.klass) || exists|e: int|
                            0 <= e < q && !is_mirror(#[trigger] objs[e]) && objs[e].klass == object.klass);
                        assert(false);
                    }
                    assert(tib_arena.cursor() == arena_before.cursor() + step);
                    assert((pb + 1) * step == pb * step + step) by (nonlinear_arith);
                } else {
                    assert(!is_mirror(objs[q as int]));
                    if !c0.contains_key(object.klass) {
                        let e = choose|e: int|
                            0 <= e < q && !is_mirror(#[trigger] objs[e]) && objs[e].klass == objs[q as int].klass;
                        assert(self_before.describes(tibs[e], objs[e]));
                    }
                    assert(self_before.klass_cache().contains_key(object.klass));
                    assert(*tib_arena == arena_before);
                }
            }
            let tib = *self.tib_records.get(&tib_ptr.host_ptr).unwrap();
            let header = tib.encode_header();
            let new_start = *self.forwarding.get(&object.start).unwrap();
            proof {
                lemma_forwarding_value(old(self).forwarding_spec(), objs, n as nat, q as int);
            }
            let ghost m_start = mem@;
            if HEADER {
                memif.write_value_to_target(mem, new_start, header.value());
            }
            memif.write_pointer_to_target(mem, new_start + 8, tib_ptr.host_ptr);
            if let Some(l) = object.objarray_length {
                memif.write_value_to_target(mem, new_start + 16, l);
            }
            let ghost m2 = mem@;
            let base: u64 = if is_objarray {
                new_start + 24
            } else {
                new_start + 16
            };
            let mut e: usize = 0;
            while e < object.edges.len()
                invariant
                    e <= object.edges@.len(),
                    objs == heapdump.objects@,
                    objs[q as int] == *object,
                    q < objs.len(),
                    dump_restorable(memif, HEADER, *heapdump),
                    object_movable(*object),
                    object_translatable(memif, HEADER, *object),
                    forall|a: u64| is_object_start(objs, a) ==> fwd.contains_key(a) && memif.translatable(fwd[a]),
                    fwd == forwarding_after(old(self).forwarding_spec(), objs, n as nat),
                    self.forwarding_spec() == fwd,
                    base == (if is_objarray { new_start + 24 } else { new_start + 16 }),
                    new_start == new_start_of(*object),
                    is_objarray == object.objarray_length is Some,
                    mem@ == write_refs(m2, memif, object.edges@, fwd, base, e as nat),
                decreases object.edges@.len() - e,
            {
                let edge = object.edges[e];
                proof {
                    assert(object.edges@[e as int] == edge);
                    assert(objs[q as int].edges@[e as int] == edge);
                }
                let new_referent = if edge.objref == 0 {
                    0
                } else {
                    proof {
                        assert(is_object_start(objs, edge.objref));
                    }
                    *self.forwarding.get(&edge.objref).unwrap()
                };
                let ref_cursor = base + 8 * (e as u64);
                proof {
                    assert(ref_slot(*object, e as int) == ref_cursor);
                    assert(memif.translatable(ref_slot(*object, e as int)));
                }
                memif.write_pointer_to_target(mem, ref_cursor, new_referent);
                e += 1;
            }
            self.object_sizes.insert(new_start, object.size);
            let ghost tibs_before = tibs;
            proof {
                tibs = tibs.push(tib_ptr);
                assert(mem@ == write_object(m_start, memif, HEADER, *object, tib_ptr, tib, fwd));
                assert forall|p: int| 0 <= p < q + 1 implies #[trigger] self.describes(tibs[p], objs[p]) by {
                    if p < q {
                        let t = tibs[p];
                        assert(t == tibs_before[p]);
                        assert(self_before.describes(t, objs[p]));
                        assert(t.host_ptr < host_cursor(arena_before) || t.host_ptr >= host_end(arena_before));
                        if objs[p].objarray_length is None && objs[p].instance_mirror_start is Some {
                            if t.host_ptr == tib_ptr.host_ptr {
                                assert(self.tibs() == self_before.tibs());
                            }
                        } else {
                            assert(self_before.klass_cache().contains_key(objs[p].klass));
                        }
                    }
                }
                lemma_restore_memory_prefix(old(mem)@, memif, HEADER, objs, tibs_before, tibs, self_before.tibs(),
                    self.tibs(), fwd, q as nat);
            }
            q += 1;
        }
    }
}

} // verus!
