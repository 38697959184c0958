//! The shape cache: a least-recently-used cache of the TIBs that tracing
//! looks up, and an edge-slot transitive closure that counts how the cache
//! answers each lookup.
use vstd::prelude::*;
use std::collections::{HashSet, VecDeque};
use crate::header::{with_byte, MARK_BYTE_OFFSET};
use crate::mark::{is_marked_in, trace_object};
use crate::object_model::{ObjectModel, SlotChunk, TibType};
use crate::simulate::lru_cache::{after_get, after_put, key_position, lru_capacity, lru_entries, lru_get, lru_new, lru_put, lru_wf, LruMap};
use crate::target_memory::{word_at, TargetMemory};
use crate::trace::{
    chunk_slot, expand_chunks, is_slot_of, is_trace_path, lemma_mark_byte_of_marked, lemma_marks_only_extend,
    lemma_marks_only_widen, lemma_new_slots, lemma_path_extend, lemma_pop_seen, lemma_pop_visit, lemma_removes_first,
    lemma_trace_root, marks_only, points_to, progress_ok, reachable_objects, slot_owned, stack_slots_ok,
    trace_reachable, traceable, TracingStats,
};

verus! {

broadcast use vstd::std_specs::hash::group_hash_axioms;

/// How the shape cache answered lookups.
#[derive(Debug, Clone, Copy, PartialEq, Eq, Structural)]
pub struct ShapeCacheStats {
    pub hits: usize,
    pub capacity_misses: usize,
    pub compulsory_misses_instance: usize,
    pub compulsory_misses_instance_mirror: usize,
}

/// No lookups.
pub open spec fn no_lookups() -> ShapeCacheStats {
    ShapeCacheStats { hits: 0, capacity_misses: 0, compulsory_misses_instance: 0, compulsory_misses_instance_mirror: 0 }
}

impl ShapeCacheStats {
    /// No lookups.
    pub fn new() -> (r: Self)
        ensures
            r == no_lookups(),
    {
        ShapeCacheStats { hits: 0, capacity_misses: 0, compulsory_misses_instance: 0, compulsory_misses_instance_mirror: 0 }
    }

    /// The column names of the statistics, tab separated.
    pub fn get_stats_header(&self) -> (r: &'static str)
        ensures
            r@ == "shape_cache.hit\tshape_cache.cap_miss\tshape_cache.comp_miss_inst\tshape_cache.comp_miss_mirror"@,
    {
        "shape_cache.hit\tshape_cache.cap_miss\tshape_cache.comp_miss_inst\tshape_cache.comp_miss_mirror"
    }

    /// Adds the counts of `other`.
    pub fn add(&mut self, other: &Self)
        requires
            old(self).hits + other.hits <= usize::MAX,
            old(self).capacity_misses + other.capacity_misses <= usize::MAX,
            old(self).compulsory_misses_instance + other.compulsory_misses_instance <= usize::MAX,
            old(self).compulsory_misses_instance_mirror + other.compulsory_misses_instance_mirror <= usize::MAX,
        ensures
            final(self).hits == old(self).hits + other.hits,
            final(self).capacity_misses == old(self).capacity_misses + other.capacity_misses,
            final(self).compulsory_misses_instance == old(self).compulsory_misses_instance
                + other.compulsory_misses_instance,
            final(self).compulsory_misses_instance_mirror == old(self).compulsory_misses_instance_mirror
                + other.compulsory_misses_instance_mirror,
    {
        self.hits = self.hits + other.hits;
        self.capacity_misses = self.capacity_misses + other.capacity_misses;
        self.compulsory_misses_instance = self.compulsory_misses_instance + other.compulsory_misses_instance;
        self.compulsory_misses_instance_mirror = self.compulsory_misses_instance_mirror
            + other.compulsory_misses_instance_mirror;
    }
}

/// How the shape cache answers a lookup.
#[derive(Debug, Clone, Copy, PartialEq, Eq, Structural)]
pub enum ShapeCacheResponse {
    Hit,
    CapacityMiss,
    CompulsoryMissInstance,
    CompulsoryMissInstanceMirror,
}

/// `x + 1`, or `x` at the top of the range.
pub open spec fn sat_inc(x: usize) -> usize {
    if x < usize::MAX {
        (x + 1) as usize
    } else {
        x
    }
}

/// The statistics after one more answer `r`.
pub open spec fn count_response(s: ShapeCacheStats, r: ShapeCacheResponse) -> ShapeCacheStats {
    match r {
        ShapeCacheResponse::Hit => ShapeCacheStats { hits: sat_inc(s.hits), ..s },
        ShapeCacheResponse::CapacityMiss => ShapeCacheStats { capacity_misses: sat_inc(s.capacity_misses), ..s },
        ShapeCacheResponse::CompulsoryMissInstance => ShapeCacheStats {
            compulsory_misses_instance: sat_inc(s.compulsory_misses_instance),
            ..s
        },
        ShapeCacheResponse::CompulsoryMissInstanceMirror => ShapeCacheStats {
            compulsory_misses_instance_mirror: sat_inc(s.compulsory_misses_instance_mirror),
            ..s
        },
    }
}

/// The answer to a lookup of the TIB at `tib`, of kind `ttype`, given the
/// TIBs `seen` before and the cache `entries`: an instance mirror is never
/// cached; a TIB seen before hits when it is still cached and otherwise
/// misses for lack of room; a TIB never seen misses compulsorily.
pub open spec fn response(seen: Set<u64>, entries: Seq<(u64, u64)>, tib: u64, ttype: TibType) -> ShapeCacheResponse {
    if ttype == TibType::InstanceMirror {
        ShapeCacheResponse::CompulsoryMissInstanceMirror
    } else if seen.contains(tib) {
        if key_position(entries, tib) is Some {
            ShapeCacheResponse::Hit
        } else {
            ShapeCacheResponse::CapacityMiss
        }
    } else {
        ShapeCacheResponse::CompulsoryMissInstance
    }
}

/// The cache entries after a lookup answered `r`: a hit becomes the most
/// recently used; a miss that is not a mirror is put in.
pub open spec fn entries_after(entries: Seq<(u64, u64)>, cap: nat, tib: u64, r: ShapeCacheResponse) -> Seq<(u64, u64)> {
    match r {
        ShapeCacheResponse::Hit => after_get(entries, tib),
        ShapeCacheResponse::CompulsoryMissInstanceMirror => entries,
        _ => after_put(entries, cap, tib, 0),
    }
}

/// A least-recently-used cache of TIB addresses, the TIBs ever looked up,
/// and how lookups were answered.
pub struct ShapeLruCache {
    pub cache: LruMap,
    pub tib_seen: HashSet<u64>,
    pub stats: ShapeCacheStats,
}

impl ShapeLruCache {
    /// An empty cache of `capacity` TIBs.
    pub fn new(capacity: usize) -> (r: Self)
        requires
            capacity > 0,
        ensures
            lru_wf(r.cache),
            lru_entries(r.cache) == Seq::<(u64, u64)>::empty(),
            lru_capacity(r.cache) == capacity,
            r.tib_seen@ == Set::<u64>::empty(),
            r.stats == no_lookups(),
    {
        ShapeLruCache { cache: lru_new(capacity), tib_seen: HashSet::new(), stats: ShapeCacheStats::new() }
    }

    /// Looks up the TIB at `tib` and counts the answer.
    pub fn update<O: ObjectModel>(&mut self, model: &O, tib: u64)
        requires
            model.knows_tib(tib),
            lru_wf(old(self).cache),
        ensures
            ({
                let r = response(old(self).tib_seen@, lru_entries(old(self).cache), tib, model.tib_kind(tib));
                &&& lru_wf(final(self).cache)
                &&& lru_capacity(final(self).cache) == lru_capacity(old(self).cache)
                &&& lru_entries(final(self).cache) == entries_after(
                    lru_entries(old(self).cache),
                    lru_capacity(old(self).cache),
                    tib,
                    r,
                )
                &&& final(self).tib_seen@ == (if r == ShapeCacheResponse::CompulsoryMissInstance {
                    old(self).tib_seen@.insert(tib)
                } else {
                    old(self).tib_seen@
                })
                &&& final(self).stats == count_response(old(self).stats, r)
            }),
    {
        let ttype = model.tib_type_at(tib);
        match ttype {
            TibType::InstanceMirror => {
                self.stats.compulsory_misses_instance_mirror =
                self.stats.compulsory_misses_instance_mirror.saturating_add(1);
            },
            _ => {
                if self.tib_seen.contains(&tib) {
                    if lru_get(&mut self.cache, tib).is_some() {
                        self.stats.hits = self.stats.hits.saturating_add(1);
                    } else {
                        self.stats.capacity_misses = self.stats.capacity_misses.saturating_add(1);
                        lru_put(&mut self.cache, tib, 0);
                    }
                } else {
                    lru_put(&mut self.cache, tib, 0);
                    self.stats.compulsory_misses_instance = self.stats.compulsory_misses_instance.saturating_add(1);
                    self.tib_seen.insert(tib);
                }
            },
        }
    }

    /// The answers counted so far; counting starts anew.
    pub fn get_stats_and_clear(&mut self) -> (r: ShapeCacheStats)
        ensures
            r == old(self).stats,
            final(self).stats == no_lookups(),
            final(self).cache == old(self).cache,
            final(self).tib_seen@ == old(self).tib_seen@,
    {
        let r = self.stats;
        self.stats = ShapeCacheStats::new();
        r
    }
}


/// Puts every slot of `chunks` at the back of `queue`, chunk by chunk.
fn push_slots_back(queue: &mut VecDeque<u64>, chunks: &Vec<SlotChunk>)
    ensures
        final(queue)@ == old(queue)@ + expand_chunks(chunks@),
{
    let mut k: usize = 0;
    while k < chunks.len()
        invariant
            k <= chunks@.len(),
            queue@ == old(queue)@ + expand_chunks(chunks@.subrange(0, k as int)),
        decreases chunks@.len() - k,
    {
        let c = chunks[k];
        let ghost before = queue@;
        let mut slot = c.0;
        let mut j: u64 = 0;
        while j < c.1
            invariant
                j <= c.1,
                slot == chunk_slot(c, j as int),
                queue@ == before + Seq::new(j as nat, |i: int| chunk_slot(c, i)),
            decreases c.1 - j,
        {
            queue.push_back(slot);
            proof {
                assert(Seq::new((j + 1) as nat, |i: int| chunk_slot(c, i)) == Seq::new(j as nat, |i: int| chunk_slot(c, i)).push(slot));
                vstd::arithmetic::div_mod::lemma_add_mod_noop(c.0 + 8 * j, 8, 0x1_0000_0000_0000_0000);
                vstd::arithmetic::div_mod::lemma_small_mod(8, 0x1_0000_0000_0000_0000);
            }
            slot = slot.wrapping_add(8);
            j += 1;
        }
        proof {
            let sub = chunks@.subrange(0, k + 1);
            assert(sub.drop_last() == chunks@.subrange(0, k as int));
            assert(sub.last() == c);
        }
        k += 1;
    }
    assert(chunks@.subrange(0, chunks@.len() as int) == chunks@);
}

/// Marks object `o` unless it is marked; a newly marked object has its TIB
/// looked up in the cache when scanning needs it, and its slots queued.
fn visit_counting<O: ObjectModel>(
    model: &O,
    mem: &mut TargetMemory,
    o: u64,
    mark_sense: u8,
    queue: &mut VecDeque<u64>,
    shape_cache: &mut ShapeLruCache,
    Ghost(mem0): Ghost<Map<u64, u64>>,
    Ghost(marked): Ghost<Set<u64>>,
) -> (r: bool)
    requires
        traceable(model, mem0, mark_sense),
        model.objects_spec().to_set().contains(o),
        marked.subset_of(model.objects_spec().to_set()),
        marks_only(mem0, old(mem)@, marked, mark_sense),
        forall|x: u64| #[trigger] marked.contains(x) ==> is_marked_in(old(mem)@, x, mark_sense),
        lru_wf(old(shape_cache).cache),
    ensures
        r == !marked.contains(o),
        r ==> final(mem)@ == old(mem)@.insert(o, with_byte(word_at(old(mem)@, o), mark_sense, MARK_BYTE_OFFSET as int))
            && final(queue)@ == old(queue)@ + expand_chunks(model.scan_chunks(mem0, o)),
        !r ==> final(mem)@ == old(mem)@ && final(queue)@ == old(queue)@ && *final(shape_cache) == *old(shape_cache),
        lru_wf(final(shape_cache).cache),
        lru_capacity(final(shape_cache).cache) == lru_capacity(old(shape_cache).cache),
        old(shape_cache).tib_seen@.subset_of(final(shape_cache).tib_seen@),
{
    let ghost objs = model.objects_spec().to_set();
    proof {
        if !marked.contains(o) {
            assert(word_at(old(mem)@, o) == word_at(mem0, o));
        }
    }
    if trace_object(mem, o, mark_sense) {
        proof {
            lemma_marks_only_extend(mem0, old(mem)@, marked, o, mark_sense);
            lemma_marks_only_widen(mem0, mem@, marked.insert(o), objs, mark_sense);
            assert(model.can_scan(mem@, o));
        }
        if model.tib_lookup_required(mem, o) {
            let tib = O::get_tib(mem, o);
            proof {
                model.lemma_scannable_tib(mem@, o);
            }
            shape_cache.update(model, tib);
        }
        let chunks = model.scan_object(mem, o);
        push_slots_back(queue, &chunks);
        true
    } else {
        false
    }
}

/// Marks every object reachable from the roots, following slots in the
/// order they were queued, and looks up in the shape cache the TIB of each
/// object it marks whose scanning needs one; returns how many objects it
/// marked and how the cache answered, which it counts anew.
pub fn transitive_closure_shape_cache<O: ObjectModel>(
    mark_sense: u8,
    model: &O,
    mem: &mut TargetMemory,
    shape_cache: &mut ShapeLruCache,
) -> (r: TracingStats)
    requires
        traceable(model, old(mem)@, mark_sense),
        lru_wf(old(shape_cache).cache),
    ensures
        r.marked_objects == reachable_objects(model, old(mem)@, model.roots_spec()).len(),
        r.slots == 0 && r.non_empty_slots == 0 && r.sends == 0,
        forall|o: u64|
            #[trigger] trace_reachable(model, old(mem)@, model.roots_spec(), o) <==> (model.objects_spec().contains(o)
                && is_marked_in(final(mem)@, o, mark_sense)),
        marks_only(old(mem)@, final(mem)@, reachable_objects(model, old(mem)@, model.roots_spec()), mark_sense),
        lru_wf(final(shape_cache).cache),
        lru_capacity(final(shape_cache).cache) == lru_capacity(old(shape_cache).cache),
        old(shape_cache).tib_seen@.subset_of(final(shape_cache).tib_seen@),
        final(shape_cache).stats == no_lookups(),
{
    let ghost mem0 = mem@;
    let ghost objs = model.objects_spec().to_set();
    let ghost roots_s = model.roots_spec();
    let ghost mut marked: Set<u64> = Set::empty();
    let ghost seen0 = shape_cache.tib_seen@;
    let ghost cap0 = lru_capacity(shape_cache.cache);
    let n_objects = model.objects().len();
    proof {
        vstd::seq_lib::seq_to_set_is_finite(model.objects_spec());
        model.objects_spec().lemma_cardinality_of_set();
    }
    let roots = model.roots();
    let mut queue: VecDeque<u64> = VecDeque::new();
    let mut marked_objects: u64 = 0;
    let mut k: usize = 0;
    while k < roots.len()
        invariant
            k <= roots@.len(),
            roots@ == roots_s,
            roots_s == model.roots_spec(),
            objs == model.objects_spec().to_set(),
            traceable(model, mem0, mark_sense),
            marked.subset_of(objs),
            marked.finite(),
            objs.finite(),
            objs.len() <= n_objects,
            marked_objects == marked.len(),
            marks_only(mem0, mem@, marked, mark_sense),
            forall|x: u64| #[trigger] marked.contains(x) ==> is_marked_in(mem@, x, mark_sense),
            stack_slots_ok(model, mem0, queue@, marked),
            progress_ok(model, mem0, queue@, marked),
            forall|x: u64| #[trigger] marked.contains(x) ==> trace_reachable(model, mem0, roots_s, x),
            forall|r: int| 0 <= r < k && #[trigger] roots_s[r] != 0 ==> marked.contains(roots_s[r]),
            lru_wf(shape_cache.cache),
            lru_capacity(shape_cache.cache) == cap0,
            seen0.subset_of(shape_cache.tib_seen@),
        decreases roots@.len() - k,
    {
        let o = roots[k];
        if o != 0 {
            proof {
                assert(roots_s[k as int] == o);
                assert(objs.contains(o));
            }
            let ghost queue_before = queue@;
            let ghost mem_before = mem@;
            let newly = visit_counting(model, mem, o, mark_sense, &mut queue, shape_cache, Ghost(mem0), Ghost(marked));
            if newly {
                proof {
                    lemma_marks_only_extend(mem0, mem_before, marked, o, mark_sense);
                    lemma_mark_byte_of_marked(word_at(mem_before, o), mark_sense);
                    vstd::set_lib::lemma_len_subset(marked.insert(o), objs);
                    lemma_trace_root(model, mem0, roots_s, k as int);
                    lemma_new_slots(model, mem0, queue_before, queue@, marked, o);
                    marked = marked.insert(o);
                    assert(marked.len() <= objs.len());
                }
                marked_objects = marked_objects + 1;
            }
        }
        k += 1;
    }
    while queue.len() > 0
        invariant
            roots_s == model.roots_spec(),
            objs == model.objects_spec().to_set(),
            traceable(model, mem0, mark_sense),
            marked.subset_of(objs),
            marked.finite(),
            objs.finite(),
            objs.len() <= n_objects,
            marked_objects == marked.len(),
            marks_only(mem0, mem@, marked, mark_sense),
            forall|x: u64| #[trigger] marked.contains(x) ==> is_marked_in(mem@, x, mark_sense),
            stack_slots_ok(model, mem0, queue@, marked),
            progress_ok(model, mem0, queue@, marked),
            forall|x: u64| #[trigger] marked.contains(x) ==> trace_reachable(model, mem0, roots_s, x),
            forall|r: int| 0 <= r < roots_s.len() && #[trigger] roots_s[r] != 0 ==> marked.contains(roots_s[r]),
            lru_wf(shape_cache.cache),
            lru_capacity(shape_cache.cache) == cap0,
            seen0.subset_of(shape_cache.tib_seen@),
        decreases objs.len() - marked.len(), queue@.len(),
    {
        proof {
            vstd::set_lib::lemma_len_subset(marked, objs);
        }
        let ghost queue_before = queue@;
        let e = queue.pop_front().unwrap();
        proof {
            assert(queue_before =~= seq![e] + queue@);
            lemma_removes_first(e, queue@);
            assert(queue_before[0] == e);
            assert(slot_owned(model, mem0, marked, queue_before[0]));
        }
        let ghost x = choose|x: u64| #[trigger] marked.contains(x) && is_slot_of(model, mem0, x, queue_before[0]);
        proof {
            lemma_marks_only_widen(mem0, mem@, marked, objs, mark_sense);
            assert(objs.contains(x));
            assert(model.can_scan(mem@, x));
            assert(word_at(mem@, e) == word_at(mem0, e));
        }
        let o = mem.load(e);
        if o != 0 {
            proof {
                assert(objs.contains(o));
            }
            let ghost popped = queue@;
            let ghost mem_before = mem@;
            let newly = visit_counting(model, mem, o, mark_sense, &mut queue, shape_cache, Ghost(mem0), Ghost(marked));
            if newly {
                proof {
                    lemma_marks_only_extend(mem0, mem_before, marked, o, mark_sense);
                    lemma_mark_byte_of_marked(word_at(mem_before, o), mark_sense);
                    vstd::set_lib::lemma_len_subset(marked.insert(o), objs);
                    assert(points_to(model, mem0, x, o));
                    let p = choose|p: Seq<u64>| #[trigger] is_trace_path(model, mem0, roots_s, p) && p.last() == x;
                    lemma_path_extend(model, mem0, roots_s, p, o);
                    assert(p.push(o).last() == o);
                    lemma_pop_visit(model, mem0, queue_before, popped, queue@, e, marked, o);
                    marked = marked.insert(o);
                }
                marked_objects = marked_objects + 1;
            } else {
                proof {
                    lemma_pop_seen(model, mem0, queue_before, popped, e, marked);
                }
            }
        } else {
            proof {
                lemma_pop_seen(model, mem0, queue_before, queue@, e, marked);
            }
        }
    }
    proof {
        assert forall|x: u64, t: u64| marked.contains(x) && #[trigger] points_to(model, mem0, x, t) implies marked.contains(
            t,
        ) by {
            let sl = choose|sl: u64| #[trigger] is_slot_of(model, mem0, x, sl) && word_at(mem0, sl) == t;
        }
        crate::queue_trace::lemma_closure_exact(model, mem0, mem@, mark_sense, marked);
    }
    let shape_cache_stats = shape_cache.get_stats_and_clear();
    TracingStats { marked_objects, slots: 0, non_empty_slots: 0, sends: 0, shape_cache_stats }
}

} // verus!
