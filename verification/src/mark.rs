//! Marking objects in target memory, and checking the marks a tracing loop
//! left behind.
use vstd::prelude::*;
use crate::header::{byte_of, lemma_get_set_same, lemma_set_set, with_byte, Header, MARK_BYTE_OFFSET};
use crate::object_model::ObjectModel;
use crate::target_memory::{word_at, TargetMemory};
use crate::cli::TracingLoopChoice;
use crate::distributed::transitive_closure_distributed_node_objref;
use crate::shape_cache::{transitive_closure_shape_cache, ShapeLruCache};
use crate::simulate::lru_cache::{lru_capacity, lru_wf};
use crate::queue_trace::{transitive_closure_edge_objref, transitive_closure_node_objref};
use crate::trace::{
    is_slot_of, is_trace_path, mark_bytes_only, marks_only, points_to, reachable_objects, trace_reachable, traceable,
    transitive_closure_edge_slot, TracingStats,
};

verus! {

/// Whether object `o` carries mark `mark_sense` in memory `m`.
pub open spec fn is_marked_in(m: Map<u64, u64>, o: u64, mark_sense: u8) -> bool {
    byte_of(word_at(m, o), MARK_BYTE_OFFSET as int) == mark_sense
}

/// Marks object `o` with `mark_sense`; returns whether it was unmarked
/// before.  (The mark sense starts at 1 and flips every epoch.)
pub fn trace_object(mem: &mut TargetMemory, o: u64, mark_sense: u8) -> (r: bool)
    ensures
        r <==> !is_marked_in(old(mem)@, o, mark_sense),
        r ==> final(mem)@ == old(mem)@.insert(o, with_byte(word_at(old(mem)@, o), mark_sense, MARK_BYTE_OFFSET as int)),
        !r ==> final(mem)@ == old(mem)@,
        is_marked_in(final(mem)@, o, mark_sense),
{
    let mut header = Header::load(mem, o);
    let mark_byte = header.get_mark_byte();
    if mark_byte == mark_sense {
        false
    } else {
        header.set_mark_byte(mark_sense);
        header.store(mem, o);
        proof {
            lemma_get_set_same(word_at(old(mem)@, o), mark_sense, MARK_BYTE_OFFSET as int);
        }
        true
    }
}

/// The objects of `objects` that do not carry mark `mark_sense`.
pub open spec fn unmarked(m: Map<u64, u64>, objects: Seq<u64>, mark_sense: u8) -> Seq<u64> {
    objects.filter(|o: u64| !is_marked_in(m, o, mark_sense))
}

/// The objects of the model that a transitive closure left without mark
/// `mark_sense`, in object order.
pub fn verify_mark<O: ObjectModel>(mark_sense: u8, object_model: &O, mem: &TargetMemory) -> (r: Vec<u64>)
    ensures
        r@ == unmarked(mem@, object_model.objects_spec(), mark_sense),
{
    let objects = object_model.objects();
    let mut r: Vec<u64> = Vec::new();
    let mut i: usize = 0;
    while i < objects.len()
        invariant
            objects@ == object_model.objects_spec(),
            i <= objects@.len(),
            r@ == unmarked(mem@, objects@.subrange(0, i as int), mark_sense),
        decreases objects@.len() - i,
    {
        let o = objects[i];
        let header = Header::load(mem, o);
        proof {
            let pred = |o: u64| !is_marked_in(mem@, o, mark_sense);
            assert(objects@.subrange(0, i + 1) == objects@.subrange(0, i as int).push(o));
            objects@.subrange(0, i as int).lemma_filter_push(o, pred);
        }
        if header.get_mark_byte() != mark_sense {
            r.push(o);
        }
        i += 1;
    }
    assert(objects@.subrange(0, objects@.len() as int) == objects@);
    r
}

/// The tracing loops that run here on one thread (the distributed loop with
/// its threads taking turns).
pub open spec fn sequential_loop(l: TracingLoopChoice) -> bool {
    l is EdgeSlot || l is EdgeObjref || l is NodeObjref || l is DistributedNodeObjref || l is ShapeCache
}

/// Runs tracing loop `l` over the heap: each marks exactly the objects
/// reachable from the roots.  `None`, with memory untouched, for the loops
/// that hand work out to several threads.
pub fn transitive_closure<O: ObjectModel>(
    l: TracingLoopChoice,
    mark_sense: u8,
    object_model: &O,
    mem: &mut TargetMemory,
    shape_cache: &mut ShapeLruCache,
) -> (r: Option<TracingStats>)
    requires
        lru_wf(old(shape_cache).cache),
        sequential_loop(l) ==> traceable(object_model, old(mem)@, mark_sense),
        l is EdgeObjref ==> forall|i: int|
            0 <= i < object_model.roots_spec().len() ==> #[trigger] object_model.roots_spec()[i] != 0,
    ensures
        r is Some <==> sequential_loop(l),
        r matches Some(stats) ==> {
            &&& stats.marked_objects == reachable_objects(object_model, old(mem)@, object_model.roots_spec()).len()
            &&& forall|o: u64|
                #[trigger] trace_reachable(object_model, old(mem)@, object_model.roots_spec(), o) <==> (
                object_model.objects_spec().contains(o) && is_marked_in(final(mem)@, o, mark_sense))
            &&& marks_only(
                old(mem)@,
                final(mem)@,
                reachable_objects(object_model, old(mem)@, object_model.roots_spec()),
                mark_sense,
            )
        },
        r is None ==> final(mem)@ == old(mem)@,
        lru_wf(final(shape_cache).cache),
        lru_capacity(final(shape_cache).cache) == lru_capacity(old(shape_cache).cache),
        !(l is ShapeCache) ==> *final(shape_cache) == *old(shape_cache),
{
    match l {
        TracingLoopChoice::EdgeObjref => Some(transitive_closure_edge_objref(mark_sense, object_model, mem)),
        TracingLoopChoice::EdgeSlot => Some(transitive_closure_edge_slot(mark_sense, object_model, mem)),
        TracingLoopChoice::NodeObjref => Some(transitive_closure_node_objref(mark_sense, object_model, mem)),
        TracingLoopChoice::DistributedNodeObjref => Some(
            transitive_closure_distributed_node_objref(mark_sense, object_model, mem),
        ),
        TracingLoopChoice::ShapeCache => Some(
            transitive_closure_shape_cache(mark_sense, object_model, mem, shape_cache),
        ),
        _ => None,
    }
}

/// Mark bytes set on top of mark bytes set are mark bytes set.
pub(crate) proof fn lemma_mark_bytes_only_trans(m0: Map<u64, u64>, m1: Map<u64, u64>, m2: Map<u64, u64>, objs: Set<u64>)
    requires
        mark_bytes_only(m0, m1, objs),
        mark_bytes_only(m1, m2, objs),
    ensures
        mark_bytes_only(m0, m2, objs),
{
    assert forall|a: u64| #[trigger] word_at(m2, a) != word_at(m0, a) implies objs.contains(a) && word_at(m2, a)
        == with_byte(word_at(m0, a), byte_of(word_at(m2, a), MARK_BYTE_OFFSET as int), MARK_BYTE_OFFSET as int) by {
        let w0 = word_at(m0, a);
        let w1 = word_at(m1, a);
        let w2 = word_at(m2, a);
        if w1 != w0 && w2 != w1 {
            lemma_set_set(w0, byte_of(w1, MARK_BYTE_OFFSET as int), byte_of(w2, MARK_BYTE_OFFSET as int), MARK_BYTE_OFFSET as int);
        }
    }
}

/// Memory `m1` differs from `m0` only in mark bytes of objects, so objects
/// scan alike and refer to the same objects in both.
proof fn lemma_same_scan<O: ObjectModel>(model: &O, m0: Map<u64, u64>, m1: Map<u64, u64>, mark_sense: u8, o: u64)
    requires
        traceable(model, m0, mark_sense),
        mark_bytes_only(m0, m1, model.objects_spec().to_set()),
        model.objects_spec().to_set().contains(o),
    ensures
        model.can_scan(m1, o),
        model.scan_chunks(m1, o) == model.scan_chunks(m0, o),
        forall|s: u64| #[trigger] is_slot_of(model, m1, o, s) == is_slot_of(model, m0, o, s),
        forall|s: u64| is_slot_of(model, m0, o, s) ==> #[trigger] word_at(m1, s) == word_at(m0, s),
        forall|t: u64| #[trigger] points_to(model, m1, o, t) == points_to(model, m0, o, t),
{
    assert(model.can_scan(m1, o));
    assert forall|t: u64| #[trigger] points_to(model, m1, o, t) == points_to(model, m0, o, t) by {
        if points_to(model, m0, o, t) {
            let s = choose|s: u64| #[trigger] is_slot_of(model, m0, o, s) && word_at(m0, s) == t;
            assert(is_slot_of(model, m1, o, s));
        }
        if points_to(model, m1, o, t) {
            let s = choose|s: u64| #[trigger] is_slot_of(model, m1, o, s) && word_at(m1, s) == t;
            assert(is_slot_of(model, m0, o, s));
        }
    }
}

/// Every object on a chain of references from a root is an object of the model.
proof fn lemma_path_objects<O: ObjectModel>(model: &O, mem: Map<u64, u64>, mark_sense: u8, p: Seq<u64>, i: int)
    requires
        traceable(model, mem, mark_sense),
        is_trace_path(model, mem, model.roots_spec(), p),
        0 <= i < p.len(),
    ensures
        model.objects_spec().to_set().contains(p[i]),
    decreases i,
{
    if i == 0 {
        let r = choose|r: int| 0 <= r < model.roots_spec().len() && model.roots_spec()[r] == p[0];
    } else {
        let j = i - 1;
        lemma_path_objects(model, mem, mark_sense, p, j);
        assert(points_to(model, mem, p[j], p[j + 1]));
        let s = choose|s: u64| #[trigger] is_slot_of(model, mem, p[j], s) && word_at(mem, s) == p[j + 1];
    }
}

/// Once a closure with mark sense `s1` has marked every object, the heap
/// can be traced again with another sense `s2`, and the same objects are
/// reachable.
pub proof fn lemma_retrace<O: ObjectModel>(model: &O, m0: Map<u64, u64>, m1: Map<u64, u64>, s1: u8, s2: u8)
    requires
        traceable(model, m0, s1),
        s1 != s2,
        mark_bytes_only(m0, m1, model.objects_spec().to_set()),
        forall|o: u64| #[trigger] model.objects_spec().to_set().contains(o) ==> is_marked_in(m1, o, s1),
    ensures
        traceable(model, m1, s2),
        reachable_objects(model, m1, model.roots_spec()) == reachable_objects(model, m0, model.roots_spec()),
{
    let objs = model.objects_spec().to_set();
    let roots = model.roots_spec();
    assert forall|o: u64, s: u64|
        objs.contains(o) && #[trigger] is_slot_of(model, m1, o, s) && word_at(m1, s) != 0 implies objs.contains(
        word_at(m1, s),
    ) by {
        lemma_same_scan(model, m0, m1, s1, o);
        assert(is_slot_of(model, m0, o, s));
    }
    assert forall|m2: Map<u64, u64>, o: u64|
        mark_bytes_only(m1, m2, objs) && #[trigger] objs.contains(o) implies #[trigger] model.can_scan(m2, o)
        && model.scan_chunks(m2, o) == model.scan_chunks(m1, o) && forall|s: u64|
        #[trigger] is_slot_of(model, m1, o, s) ==> word_at(m2, s) == word_at(m1, s) by {
        lemma_mark_bytes_only_trans(m0, m1, m2, objs);
        lemma_same_scan(model, m0, m1, s1, o);
        lemma_same_scan(model, m0, m2, s1, o);
        assert forall|s: u64| #[trigger] is_slot_of(model, m1, o, s) implies word_at(m2, s) == word_at(m1, s) by {
            assert(is_slot_of(model, m0, o, s));
        }
    }
    assert forall|o: u64| #[trigger] objs.contains(o) implies !is_marked_in(m1, o, s2) by {
        assert(is_marked_in(m1, o, s1));
    }
    assert forall|r: int| 0 <= r < roots.len() && #[trigger] roots[r] != 0 implies objs.contains(roots[r]) by {}
    assert(traceable(model, m1, s2));
    assert forall|o: u64| #[trigger] trace_reachable(model, m1, roots, o) == trace_reachable(model, m0, roots, o) by {
        if trace_reachable(model, m0, roots, o) {
            let p = choose|p: Seq<u64>| #[trigger] is_trace_path(model, m0, roots, p) && p.last() == o;
            assert forall|i: int| 0 <= i < p.len() - 1 implies #[trigger] points_to(model, m1, p[i], p[i + 1]) by {
                lemma_path_objects(model, m0, s1, p, i);
                lemma_same_scan(model, m0, m1, s1, p[i]);
                assert(points_to(model, m0, p[i], p[i + 1]));
            }
            assert(is_trace_path(model, m1, roots, p));
        }
        if trace_reachable(model, m1, roots, o) {
            let p = choose|p: Seq<u64>| #[trigger] is_trace_path(model, m1, roots, p) && p.last() == o;
            assert forall|i: int| 0 <= i < p.len() - 1 implies #[trigger] points_to(model, m0, p[i], p[i + 1]) by {
                lemma_path_objects(model, m1, s2, p, i);
                lemma_same_scan(model, m0, m1, s1, p[i]);
                assert(points_to(model, m1, p[i], p[i + 1]));
            }
            assert(is_trace_path(model, m0, roots, p));
        }
    }
    assert(reachable_objects(model, m1, roots) =~= reachable_objects(model, m0, roots));
}

/// The mark sense of iteration `i`: 1 at first, flipping every iteration.
pub open spec fn iteration_mark_sense(i: int) -> u8 {
    if i % 2 == 0 {
        1
    } else {
        0
    }
}

/// Traces the heap `iterations` times with loop `l`, the mark sense
/// starting at 1 and flipping every iteration.  Returns the counters of
/// the last iteration (`None` for no iteration, or for a loop that hands
/// work out to threads, which leaves memory untouched) and the mark sense
/// left on the heap.  Every iteration marks the same objects, the
/// reachable ones; to trace more than once, every object must be
/// reachable, so that the previous marks are all flipped.
pub fn trace_iterations<O: ObjectModel>(
    l: TracingLoopChoice,
    iterations: usize,
    object_model: &O,
    mem: &mut TargetMemory,
    shape_cache: &mut ShapeLruCache,
) -> (r: (Option<TracingStats>, u8))
    requires
        lru_wf(old(shape_cache).cache),
        traceable(object_model, old(mem)@, 1),
        l is EdgeObjref ==> forall|i: int|
            0 <= i < object_model.roots_spec().len() ==> #[trigger] object_model.roots_spec()[i] != 0,
        iterations >= 2 ==> forall|o: u64|
            #[trigger] object_model.objects_spec().to_set().contains(o) ==> trace_reachable(
                object_model,
                old(mem)@,
                object_model.roots_spec(),
                o,
            ),
    ensures
        r.1 == (if iterations == 0 { 0 } else { iteration_mark_sense(iterations - 1) }),
        r.0 is Some <==> iterations > 0 && sequential_loop(l),
        r.0 matches Some(stats) ==> {
            &&& stats.marked_objects == reachable_objects(object_model, old(mem)@, object_model.roots_spec()).len()
            &&& forall|o: u64|
                #[trigger] trace_reachable(object_model, old(mem)@, object_model.roots_spec(), o) <==> (
                object_model.objects_spec().contains(o) && is_marked_in(final(mem)@, o, r.1))
            &&& mark_bytes_only(
                old(mem)@,
                final(mem)@,
                reachable_objects(object_model, old(mem)@, object_model.roots_spec()),
            )
        },
        r.0 is None ==> final(mem)@ == old(mem)@,
{
    let ghost mem0 = mem@;
    let ghost objs = object_model.objects_spec().to_set();
    let ghost roots = object_model.roots_spec();
    let ghost reach = reachable_objects(object_model, mem0, roots);
    let mut mark_sense: u8 = 0;
    let mut last: Option<TracingStats> = None;
    let mut i: usize = 0;
    while i < iterations
        invariant
            objs == object_model.objects_spec().to_set(),
            roots == object_model.roots_spec(),
            reach == reachable_objects(object_model, mem0, roots),
            traceable(object_model, mem0, 1),
            lru_wf(shape_cache.cache),
            l is EdgeObjref ==> forall|k: int| 0 <= k < roots.len() ==> #[trigger] roots[k] != 0,
            iterations >= 2 ==> forall|o: u64| #[trigger] objs.contains(o) ==> trace_reachable(object_model, mem0, roots, o),
            i <= iterations,
            mark_sense == (if i == 0 { 0 } else { iteration_mark_sense(i - 1) }),
            i == 0 ==> mem@ == mem0 && last is None,
            !sequential_loop(l) ==> mem@ == mem0 && last is None,
            i > 0 && sequential_loop(l) ==> {
                &&& last matches Some(stats) && stats.marked_objects == reach.len()
                &&& forall|o: u64| #[trigger] trace_reachable(object_model, mem0, roots, o) <==> (objs.contains(o)
                    && is_marked_in(mem@, o, mark_sense))
                &&& mark_bytes_only(mem0, mem@, reach)
                &&& mark_bytes_only(mem0, mem@, objs)
                &&& i < iterations ==> traceable(object_model, mem@, iteration_mark_sense(i as int))
                    && reachable_objects(object_model, mem@, roots) == reach
            },
        decreases iterations - i,
    {
        let ghost mem_before = mem@;
        mark_sense = if i % 2 == 0 {
            1
        } else {
            0
        };
        proof {
            assert(mark_sense == iteration_mark_sense(i as int));
        }
        let stats = transitive_closure(l, mark_sense, object_model, mem, shape_cache);
        proof {
            if sequential_loop(l) {
                let reach_before = reachable_objects(object_model, mem_before, roots);
                assert(reach_before == reach);
                assert(reach.subset_of(objs)) by {
                    assert forall|o: u64| #[trigger] reach.contains(o) implies objs.contains(o) by {
                        assert(trace_reachable(object_model, mem_before, roots, o));
                    }
                }
                crate::trace::lemma_marks_only_widen(mem_before, mem@, reach, objs, mark_sense);
                crate::trace::lemma_marks_only_widen(mem_before, mem@, reach, reach, mark_sense);
                if i > 0 {
                    lemma_mark_bytes_only_trans(mem0, mem_before, mem@, objs);
                    lemma_mark_bytes_only_trans(mem0, mem_before, mem@, reach);
                }
                assert forall|o: u64| #[trigger] trace_reachable(object_model, mem0, roots, o) <==> (objs.contains(o)
                    && is_marked_in(mem@, o, mark_sense)) by {
                    assert(reach.contains(o) == trace_reachable(object_model, mem0, roots, o));
                    assert(reach.contains(o) == trace_reachable(object_model, mem_before, roots, o));
                }
                if i + 1 < iterations {
                    assert forall|o: u64| #[trigger] objs.contains(o) implies is_marked_in(mem@, o, mark_sense) by {
                        assert(trace_reachable(object_model, mem0, roots, o));
                    }
                    lemma_retrace(object_model, mem_before, mem@, mark_sense, iteration_mark_sense(i + 1));
                }
            }
        }
        last = stats;
        i += 1;
    }
    (last, mark_sense)
}

} // verus!
