//! Transitive closures that queue objects rather than slots: node-objref,
//! which marks an object when it first sees a reference to it, and
//! edge-objref, which queues every reference and marks when it dequeues.
use vstd::prelude::*;
use std::collections::VecDeque;
use crate::header::{with_byte, MARK_BYTE_OFFSET};
use crate::mark::{is_marked_in, trace_object};
use crate::object_model::ObjectModel;
use crate::target_memory::{word_at, TargetMemory};
use crate::trace::{
    expand_chunks, is_slot_of, is_trace_path, lemma_closed_holds_path, lemma_expand_contains,
    lemma_mark_byte_of_marked, lemma_marks_only_extend, lemma_marks_only_widen, lemma_path_extend,
    lemma_trace_root, mark_bytes_only, marks_only, points_to, push_slots, reachable_objects, trace_reachable, traceable,
    TracingStats,
};

verus! {

/// The words held by the reference slots of `o`, in scan order.
pub open spec fn slot_values<O: ObjectModel>(model: &O, mem: Map<u64, u64>, o: u64) -> Seq<u64> {
    expand_chunks(model.scan_chunks(mem, o)).map_values(|s: u64| word_at(mem, s))
}

/// Every object that `x` refers to is marked.
pub open spec fn children_marked<O: ObjectModel>(model: &O, mem: Map<u64, u64>, x: u64, marked: Set<u64>) -> bool {
    forall|t: u64| #[trigger] points_to(model, mem, x, t) ==> marked.contains(t)
}

/// Marking more objects keeps the children of `x` marked.
pub(crate) proof fn lemma_children_marked_grow<O: ObjectModel>(
    model: &O,
    mem: Map<u64, u64>,
    x: u64,
    a: Set<u64>,
    b: Set<u64>,
)
    requires
        children_marked(model, mem, x, a),
        a.subset_of(b),
    ensures
        children_marked(model, mem, x, b),
{
    assert forall|t: u64| #[trigger] points_to(model, mem, x, t) implies b.contains(t) by {
        assert(a.contains(t));
    }
}

/// Pushing onto a queue keeps what it held.
pub(crate) proof fn lemma_push_contains<T>(q: Seq<T>, v: T, y: T)
    requires
        q.contains(y) || y == v,
    ensures
        q.push(v).contains(y),
{
    if y == v {
        assert(q.push(v)[q.len() as int] == v);
    } else {
        let i = choose|i: int| 0 <= i < q.len() && q[i] == y;
        assert(q.push(v)[i] == y);
    }
}

/// A non-null word read from a slot of `o` is an object `o` refers to.
pub(crate) proof fn lemma_slot_value_points_to<O: ObjectModel>(model: &O, mem: Map<u64, u64>, o: u64, k: int)
    requires
        0 <= k < slot_values(model, mem, o).len(),
        slot_values(model, mem, o)[k] != 0,
    ensures
        points_to(model, mem, o, slot_values(model, mem, o)[k]),
{
    let ex = expand_chunks(model.scan_chunks(mem, o));
    let s = ex[k];
    assert(ex.contains(s));
    lemma_expand_contains(model.scan_chunks(mem, o), s);
    assert(is_slot_of(model, mem, o, s));
}

/// Every object that `o` refers to is read from one of its slots.
pub(crate) proof fn lemma_points_to_slot_value<O: ObjectModel>(model: &O, mem: Map<u64, u64>, o: u64, t: u64)
    requires
        points_to(model, mem, o, t),
    ensures
        slot_values(model, mem, o).contains(t),
{
    let s = choose|s: u64| #[trigger] is_slot_of(model, mem, o, s) && word_at(mem, s) == t;
    lemma_expand_contains(model.scan_chunks(mem, o), s);
    let ex = expand_chunks(model.scan_chunks(mem, o));
    let k = choose|k: int| 0 <= k < ex.len() && ex[k] == s;
    assert(slot_values(model, mem, o)[k] == t);
}

/// Setting mark bytes of objects changes neither whether an object can be
/// scanned nor what its slots hold.
pub(crate) proof fn lemma_slot_values_stable<O: ObjectModel>(
    model: &O,
    mem0: Map<u64, u64>,
    m2: Map<u64, u64>,
    o: u64,
    mark_sense: u8,
)
    requires
        traceable(model, mem0, mark_sense),
        mark_bytes_only(mem0, m2, model.objects_spec().to_set()),
        model.objects_spec().to_set().contains(o),
    ensures
        model.can_scan(m2, o),
        slot_values(model, m2, o) == slot_values(model, mem0, o),
{
    assert(model.can_scan(m2, o));
    let ex = expand_chunks(model.scan_chunks(mem0, o));
    assert forall|k: int| 0 <= k < ex.len() implies word_at(m2, ex[k]) == word_at(mem0, ex[k]) by {
        assert(ex.contains(ex[k]));
        lemma_expand_contains(model.scan_chunks(mem0, o), ex[k]);
        assert(is_slot_of(model, mem0, o, ex[k]));
    }
    assert(slot_values(model, m2, o) =~= slot_values(model, mem0, o));
}

/// A set of reachable objects that holds every non-null root and every
/// object a member refers to is the reachable set; marking exactly its
/// members marks exactly the reachable objects.
pub(crate) proof fn lemma_closure_exact<O: ObjectModel>(
    model: &O,
    mem0: Map<u64, u64>,
    m1: Map<u64, u64>,
    mark_sense: u8,
    marked: Set<u64>,
)
    requires
        traceable(model, mem0, mark_sense),
        marked.subset_of(model.objects_spec().to_set()),
        marks_only(mem0, m1, marked, mark_sense),
        forall|x: u64| #[trigger] marked.contains(x) ==> is_marked_in(m1, x, mark_sense),
        forall|x: u64| #[trigger] marked.contains(x) ==> trace_reachable(model, mem0, model.roots_spec(), x),
        forall|r: int|
            0 <= r < model.roots_spec().len() && #[trigger] model.roots_spec()[r] != 0 ==> marked.contains(
                model.roots_spec()[r],
            ),
        forall|x: u64, t: u64| marked.contains(x) && #[trigger] points_to(model, mem0, x, t) ==> marked.contains(t),
    ensures
        reachable_objects(model, mem0, model.roots_spec()) == marked,
        forall|o: u64|
            #[trigger] trace_reachable(model, mem0, model.roots_spec(), o) <==> (model.objects_spec().contains(o)
                && is_marked_in(m1, o, mark_sense)),
        marks_only(mem0, m1, reachable_objects(model, mem0, model.roots_spec()), mark_sense),
{
    let roots_s = model.roots_spec();
    let objs = model.objects_spec().to_set();
    let reach = reachable_objects(model, mem0, roots_s);
    assert forall|o: u64| #[trigger] reach.contains(o) <==> marked.contains(o) by {
        if reach.contains(o) {
            let p = choose|p: Seq<u64>| #[trigger] is_trace_path(model, mem0, roots_s, p) && p.last() == o;
            lemma_closed_holds_path(model, mem0, roots_s, marked, p, p.len() - 1);
        }
    }
    assert(reach =~= marked);
    assert forall|o: u64| #[trigger] trace_reachable(model, mem0, roots_s, o) <==> (model.objects_spec().contains(o)
        && is_marked_in(m1, o, mark_sense)) by {
        assert(reach.contains(o) == trace_reachable(model, mem0, roots_s, o));
        if model.objects_spec().contains(o) && !marked.contains(o) {
            assert(objs.contains(o));
            assert(word_at(m1, o) == word_at(mem0, o));
        }
        if marked.contains(o) {
            assert(objs.contains(o));
        }
    }
}

/// The words held by the reference slots of `o`, in scan order.
pub fn slot_words<O: ObjectModel>(model: &O, mem: &TargetMemory, o: u64) -> (r: Vec<u64>)
    requires
        model.can_scan(mem@, o),
    ensures
        r@ == slot_values(model, mem@, o),
{
    let chunks = model.scan_object(mem, o);
    let mut slots: Vec<u64> = Vec::new();
    push_slots(&mut slots, &chunks);
    assert(slots@ =~= expand_chunks(model.scan_chunks(mem@, o)));
    let mut words: Vec<u64> = Vec::new();
    let mut i: usize = 0;
    while i < slots.len()
        invariant
            i <= slots@.len(),
            words@.len() == i,
            forall|k: int| 0 <= k < i ==> #[trigger] words@[k] == word_at(mem@, slots@[k]),
        decreases slots@.len() - i,
    {
        let w = mem.load(slots[i]);
        words.push(w);
        i += 1;
    }
    assert(words@ =~= slot_values(model, mem@, o));
    words
}

/// Marks every object reachable from the roots, marking each object when
/// a reference to it is first seen and queueing it to be scanned; returns
/// how many objects it marked and how many slots it read.
pub fn transitive_closure_node_objref<O: ObjectModel>(mark_sense: u8, model: &O, mem: &mut TargetMemory) -> (r:
    TracingStats)
    requires
        traceable(model, old(mem)@, mark_sense),
    ensures
        r.marked_objects == reachable_objects(model, old(mem)@, model.roots_spec()).len(),
        forall|o: u64|
            #[trigger] trace_reachable(model, old(mem)@, model.roots_spec(), o) <==> (model.objects_spec().contains(o)
                && is_marked_in(final(mem)@, o, mark_sense)),
        marks_only(old(mem)@, final(mem)@, reachable_objects(model, old(mem)@, model.roots_spec()), mark_sense),
{
    let ghost mem0 = mem@;
    let ghost objs = model.objects_spec().to_set();
    let ghost roots_s = model.roots_spec();
    let ghost mut marked: Set<u64> = Set::empty();
    let n_objects = model.objects().len();
    proof {
        vstd::seq_lib::seq_to_set_is_finite(model.objects_spec());
        model.objects_spec().lemma_cardinality_of_set();
    }
    let roots = model.roots();
    let mut queue: VecDeque<u64> = VecDeque::new();
    let mut stats = TracingStats::new();
    let mut k: usize = 0;
    while k < roots.len()
        invariant
            k <= roots@.len(),
            roots@ == roots_s,
            roots_s == model.roots_spec(),
            objs == model.objects_spec().to_set(),
            traceable(model, mem0, mark_sense),
            marked.subset_of(objs),
            marked.finite(),
            objs.finite(),
            objs.len() <= n_objects,
            stats.marked_objects == marked.len(),
            marks_only(mem0, mem@, marked, mark_sense),
            forall|x: u64| #[trigger] marked.contains(x) ==> is_marked_in(mem@, x, mark_sense),
            forall|x: u64| #[trigger] marked.contains(x) ==> trace_reachable(model, mem0, roots_s, x),
            forall|i: int| 0 <= i < queue@.len() ==> marked.contains(#[trigger] queue@[i]),
            forall|x: u64|
                #[trigger] marked.contains(x) ==> queue@.contains(x) || children_marked(model, mem0, x, marked),
            forall|r: int| 0 <= r < k && #[trigger] roots_s[r] != 0 ==> marked.contains(roots_s[r]),
        decreases roots@.len() - k,
    {
        let o = roots[k];
        stats.slots = stats.slots.saturating_add(1);
        stats.non_empty_slots = stats.non_empty_slots.saturating_add(1);
        if o != 0 {
            proof {
                assert(roots_s[k as int] == o);
                assert(objs.contains(o));
                if !marked.contains(o) {
                    assert(word_at(mem@, o) == word_at(mem0, o));
                }
            }
            let ghost mem_before = mem@;
            let ghost marked_prev = marked;
            let ghost q_prev = queue@;
            if trace_object(mem, o, mark_sense) {
                proof {
                    lemma_marks_only_extend(mem0, mem_before, marked, o, mark_sense);
                    vstd::set_lib::lemma_len_subset(marked.insert(o), objs);
                    lemma_trace_root(model, mem0, roots_s, k as int);
                    marked = marked.insert(o);
                }
                stats.marked_objects = stats.marked_objects + 1;
                queue.push_back(o);
                proof {
                    assert forall|x: u64| #[trigger] marked.contains(x) implies queue@.contains(x)
                        || children_marked(model, mem0, x, marked) by {
                        if x == o || q_prev.contains(x) {
                            lemma_push_contains(q_prev, o, x);
                        } else {
                            assert(marked_prev.contains(x));
                            lemma_children_marked_grow(model, mem0, x, marked_prev, marked);
                        }
                    }
                }
            }
        }
        k += 1;
    }
    while queue.len() > 0
        invariant
            roots_s == model.roots_spec(),
            objs == model.objects_spec().to_set(),
            traceable(model, mem0, mark_sense),
            marked.subset_of(objs),
            marked.finite(),
            objs.finite(),
            objs.len() <= n_objects,
            stats.marked_objects == marked.len(),
            marks_only(mem0, mem@, marked, mark_sense),
            forall|x: u64| #[trigger] marked.contains(x) ==> is_marked_in(mem@, x, mark_sense),
            forall|x: u64| #[trigger] marked.contains(x) ==> trace_reachable(model, mem0, roots_s, x),
            forall|i: int| 0 <= i < queue@.len() ==> marked.contains(#[trigger] queue@[i]),
            forall|x: u64|
                #[trigger] marked.contains(x) ==> queue@.contains(x) || children_marked(model, mem0, x, marked),
            forall|r: int| 0 <= r < roots_s.len() && #[trigger] roots_s[r] != 0 ==> marked.contains(roots_s[r]),
        decreases objs.len() - marked.len(), queue@.len(),
    {
        proof {
            vstd::set_lib::lemma_len_subset(marked, objs);
        }
        let ghost marked0 = marked;
        let ghost q_before = queue@;
        let x = queue.pop_front().unwrap();
        let ghost popped = queue@;
        proof {
            assert(q_before[0] == x);
            assert(marked.contains(x));
            lemma_marks_only_widen(mem0, mem@, marked, objs, mark_sense);
            lemma_slot_values_stable(model, mem0, mem@, x, mark_sense);
            assert forall|y: u64| #[trigger] q_before.contains(y) && y != x implies popped.contains(y) by {
                let i = choose|i: int| 0 <= i < q_before.len() && q_before[i] == y;
                assert(popped[i - 1] == y);
            }
            assert forall|i: int| 0 <= i < popped.len() implies marked.contains(#[trigger] popped[i]) by {
                assert(popped[i] == q_before[i + 1]);
            }
        }
        let words = slot_words(model, mem, x);
        let mut j: usize = 0;
        while j < words.len()
            invariant
                roots_s == model.roots_spec(),
                objs == model.objects_spec().to_set(),
                traceable(model, mem0, mark_sense),
                marked.subset_of(objs),
                marked.finite(),
                objs.finite(),
                objs.len() <= n_objects,
                stats.marked_objects == marked.len(),
                marks_only(mem0, mem@, marked, mark_sense),
                forall|y: u64| #[trigger] marked.contains(y) ==> is_marked_in(mem@, y, mark_sense),
                forall|y: u64| #[trigger] marked.contains(y) ==> trace_reachable(model, mem0, roots_s, y),
                forall|i: int| 0 <= i < queue@.len() ==> marked.contains(#[trigger] queue@[i]),
                forall|y: u64|
                    #[trigger] marked.contains(y) && y != x ==> queue@.contains(y) || children_marked(
                        model,
                        mem0,
                        y,
                        marked,
                    ),
                forall|r: int| 0 <= r < roots_s.len() && #[trigger] roots_s[r] != 0 ==> marked.contains(roots_s[r]),
                marked.contains(x),
                words@ == slot_values(model, mem0, x),
                j <= words@.len(),
                forall|i: int| 0 <= i < j && #[trigger] words@[i] != 0 ==> marked.contains(words@[i]),
                marked0.subset_of(marked),
                marked.len() - marked0.len() == queue@.len() - popped.len(),
                queue@.len() >= popped.len(),
            decreases words@.len() - j,
        {
            let w = words[j];
            stats.slots = stats.slots.saturating_add(1);
            if w != 0 {
                stats.non_empty_slots = stats.non_empty_slots.saturating_add(1);
                proof {
                    lemma_slot_value_points_to(model, mem0, x, j as int);
                    let s = choose|s: u64| #[trigger] is_slot_of(model, mem0, x, s) && word_at(mem0, s) == w;
                    assert(objs.contains(w));
                    if !marked.contains(w) {
                        assert(word_at(mem@, w) == word_at(mem0, w));
                    }
                }
                let ghost mem_before = mem@;
                let ghost marked_prev = marked;
                let ghost q_prev = queue@;
                if trace_object(mem, w, mark_sense) {
                    proof {
                        lemma_marks_only_extend(mem0, mem_before, marked, w, mark_sense);
                        vstd::set_lib::lemma_len_subset(marked.insert(w), objs);
                        let p = choose|p: Seq<u64>| #[trigger] is_trace_path(model, mem0, roots_s, p) && p.last() == x;
                        lemma_path_extend(model, mem0, roots_s, p, w);
                        assert(p.push(w).last() == w);
                        marked = marked.insert(w);
                    }
                    stats.marked_objects = stats.marked_objects + 1;
                    queue.push_back(w);
                    proof {
                        assert forall|y: u64| #[trigger] marked.contains(y) && y != x implies queue@.contains(y)
                            || children_marked(model, mem0, y, marked) by {
                            if y == w || q_prev.contains(y) {
                                lemma_push_contains(q_prev, w, y);
                            } else {
                                assert(marked_prev.contains(y));
                                lemma_children_marked_grow(model, mem0, y, marked_prev, marked);
                            }
                        }
                    }
                }
            }
            j += 1;
        }
        proof {
            assert forall|t: u64| #[trigger] points_to(model, mem0, x, t) implies marked.contains(t) by {
                lemma_points_to_slot_value(model, mem0, x, t);
                let i = choose|i: int| 0 <= i < words@.len() && words@[i] == t;
                assert(words@[i] != 0);
            }
            assert forall|y: u64| #[trigger] marked.contains(y) implies queue@.contains(y) || children_marked(
                model,
                mem0,
                y,
                marked,
            ) by {
            }
            vstd::set_lib::lemma_len_subset(marked, objs);
        }
    }
    proof {
        assert forall|y: u64, t: u64| marked.contains(y) && #[trigger] points_to(model, mem0, y, t) implies marked.contains(
            t,
        ) by {
            assert(!queue@.contains(y));
            assert(children_marked(model, mem0, y, marked));
        }
        lemma_closure_exact(model, mem0, mem@, mark_sense, marked);
    }
    stats
}

/// Every object that `x` refers to is marked or waits in `queue`.
pub open spec fn children_pending<O: ObjectModel>(
    model: &O,
    mem: Map<u64, u64>,
    x: u64,
    marked: Set<u64>,
    queue: Seq<u64>,
) -> bool {
    forall|t: u64| #[trigger] points_to(model, mem, x, t) ==> marked.contains(t) || queue.contains(t)
}

/// Marking more objects and queueing more keeps the children of `x` pending.
pub(crate) proof fn lemma_children_pending_grow<O: ObjectModel>(
    model: &O,
    mem: Map<u64, u64>,
    x: u64,
    m1: Set<u64>,
    q1: Seq<u64>,
    m2: Set<u64>,
    q2: Seq<u64>,
)
    requires
        children_pending(model, mem, x, m1, q1),
        m1.subset_of(m2),
        forall|y: u64| #[trigger] q1.contains(y) ==> m2.contains(y) || q2.contains(y),
    ensures
        children_pending(model, mem, x, m2, q2),
{
    assert forall|t: u64| #[trigger] points_to(model, mem, x, t) implies m2.contains(t) || q2.contains(t) by {
        if q1.contains(t) {
        }
    }
}

/// Queues every root and then, until the queue is empty, dequeues an
/// object, marks it and, when this marks it, queues every object it refers
/// to; returns how many objects it marked and how many slots it read.
/// Every root must be non-null: a null one would be dereferenced.
pub fn transitive_closure_edge_objref<O: ObjectModel>(mark_sense: u8, model: &O, mem: &mut TargetMemory) -> (r:
    TracingStats)
    requires
        traceable(model, old(mem)@, mark_sense),
        forall|i: int| 0 <= i < model.roots_spec().len() ==> #[trigger] model.roots_spec()[i] != 0,
    ensures
        r.marked_objects == reachable_objects(model, old(mem)@, model.roots_spec()).len(),
        forall|o: u64|
            #[trigger] trace_reachable(model, old(mem)@, model.roots_spec(), o) <==> (model.objects_spec().contains(o)
                && is_marked_in(final(mem)@, o, mark_sense)),
        marks_only(old(mem)@, final(mem)@, reachable_objects(model, old(mem)@, model.roots_spec()), mark_sense),
{
    let ghost mem0 = mem@;
    let ghost objs = model.objects_spec().to_set();
    let ghost roots_s = model.roots_spec();
    let ghost mut marked: Set<u64> = Set::empty();
    let n_objects = model.objects().len();
    proof {
        vstd::seq_lib::seq_to_set_is_finite(model.objects_spec());
        model.objects_spec().lemma_cardinality_of_set();
    }
    let roots = model.roots();
    let mut queue: VecDeque<u64> = VecDeque::new();
    let mut stats = TracingStats::new();
    let mut k: usize = 0;
    while k < roots.len()
        invariant
            k <= roots@.len(),
            roots@ == roots_s,
            roots_s == model.roots_spec(),
            forall|i: int| 0 <= i < roots_s.len() ==> #[trigger] roots_s[i] != 0,
            queue@ == roots_s.subrange(0, k as int),
            stats.marked_objects == 0,
        decreases roots@.len() - k,
    {
        let o = roots[k];
        stats.slots = stats.slots.saturating_add(1);
        if o != 0 {
            stats.non_empty_slots = stats.non_empty_slots.saturating_add(1);
        }
        queue.push_back(o);
        proof {
            assert(roots_s.subrange(0, k + 1) == roots_s.subrange(0, k as int).push(o));
        }
        k += 1;
    }
    proof {
        assert(roots_s.subrange(0, roots_s.len() as int) == roots_s);
        assert forall|i: int| 0 <= i < queue@.len() implies objs.contains(#[trigger] queue@[i])
            && trace_reachable(model, mem0, roots_s, queue@[i]) by {
            lemma_trace_root(model, mem0, roots_s, i);
        }
        assert forall|r: int| 0 <= r < roots_s.len() implies #[trigger] marked.contains(roots_s[r])
            || queue@.contains(roots_s[r]) by {
            assert(queue@[r] == roots_s[r]);
        }
    }
    while queue.len() > 0
        invariant
            roots_s == model.roots_spec(),
            objs == model.objects_spec().to_set(),
            traceable(model, mem0, mark_sense),
            marked.subset_of(objs),
            marked.finite(),
            objs.finite(),
            objs.len() <= n_objects,
            stats.marked_objects == marked.len(),
            marks_only(mem0, mem@, marked, mark_sense),
            forall|x: u64| #[trigger] marked.contains(x) ==> is_marked_in(mem@, x, mark_sense),
            forall|x: u64| #[trigger] marked.contains(x) ==> trace_reachable(model, mem0, roots_s, x),
            forall|i: int|
                0 <= i < queue@.len() ==> objs.contains(#[trigger] queue@[i]) && trace_reachable(
                    model,
                    mem0,
                    roots_s,
                    queue@[i],
                ),
            forall|x: u64| #[trigger] marked.contains(x) ==> children_pending(model, mem0, x, marked, queue@),
            forall|r: int|
                0 <= r < roots_s.len() ==> #[trigger] marked.contains(roots_s[r]) || queue@.contains(roots_s[r]),
        decreases objs.len() - marked.len(), queue@.len(),
    {
        proof {
            vstd::set_lib::lemma_len_subset(marked, objs);
        }
        let ghost marked0 = marked;
        let ghost q_before = queue@;
        let o = queue.pop_front().unwrap();
        let ghost popped = queue@;
        proof {
            assert(q_before[0] == o);
            assert(objs.contains(o));
            assert forall|y: u64| #[trigger] q_before.contains(y) implies y == o || popped.contains(y) by {
                let i = choose|i: int| 0 <= i < q_before.len() && q_before[i] == y;
                if i > 0 {
                    assert(popped[i - 1] == y);
                }
            }
            assert forall|i: int| 0 <= i < popped.len() implies objs.contains(#[trigger] popped[i])
                && trace_reachable(model, mem0, roots_s, popped[i]) by {
                assert(popped[i] == q_before[i + 1]);
            }
            if !marked.contains(o) {
                assert(word_at(mem@, o) == word_at(mem0, o));
            }
        }
        let ghost mem_before = mem@;
        if trace_object(mem, o, mark_sense) {
            proof {
                lemma_marks_only_extend(mem0, mem_before, marked, o, mark_sense);
                vstd::set_lib::lemma_len_subset(marked.insert(o), objs);
                marked = marked.insert(o);
                lemma_marks_only_widen(mem0, mem@, marked, objs, mark_sense);
                lemma_slot_values_stable(model, mem0, mem@, o, mark_sense);
            }
            stats.marked_objects = stats.marked_objects + 1;
            let words = slot_words(model, mem, o);
            let mut j: usize = 0;
            while j < words.len()
                invariant
                    objs == model.objects_spec().to_set(),
                    traceable(model, mem0, mark_sense),
                    words@ == slot_values(model, mem0, o),
                    j <= words@.len(),
                    marked.contains(o),
                    objs.contains(o),
                    stats.marked_objects == marked.len(),
                    trace_reachable(model, mem0, roots_s, o),
                    forall|i: int|
                        0 <= i < queue@.len() ==> objs.contains(#[trigger] queue@[i]) && trace_reachable(
                            model,
                            mem0,
                            roots_s,
                            queue@[i],
                        ),
                    forall|y: u64| #[trigger] popped.contains(y) ==> queue@.contains(y),
                    forall|i: int| 0 <= i < j && #[trigger] words@[i] != 0 ==> queue@.contains(words@[i]),
                decreases words@.len() - j,
            {
                let w = words[j];
                stats.slots = stats.slots.saturating_add(1);
                if w != 0 {
                    stats.non_empty_slots = stats.non_empty_slots.saturating_add(1);
                    let ghost q_prev = queue@;
                    proof {
                        lemma_slot_value_points_to(model, mem0, o, j as int);
                        let s = choose|s: u64| #[trigger] is_slot_of(model, mem0, o, s) && word_at(mem0, s) == w;
                        assert(objs.contains(w));
                        let p = choose|p: Seq<u64>| #[trigger] is_trace_path(model, mem0, roots_s, p) && p.last() == o;
                        lemma_path_extend(model, mem0, roots_s, p, w);
                        assert(p.push(w).last() == w);
                    }
                    queue.push_back(w);
                    proof {
                        assert forall|y: u64| #[trigger] q_prev.contains(y) implies queue@.contains(y) by {
                            lemma_push_contains(q_prev, w, y);
                        }
                        lemma_push_contains(q_prev, w, w);
                    }
                }
                j += 1;
            }
            proof {
                assert forall|t: u64| #[trigger] points_to(model, mem0, o, t) implies marked.contains(t)
                    || queue@.contains(t) by {
                    lemma_points_to_slot_value(model, mem0, o, t);
                    let i = choose|i: int| 0 <= i < words@.len() && words@[i] == t;
                    assert(words@[i] != 0);
                }
            }
        }
        proof {
            assert(marked.contains(o));
            assert forall|y: u64| #[trigger] q_before.contains(y) implies marked.contains(y) || queue@.contains(y) by {
            }
            assert forall|x: u64| #[trigger] marked.contains(x) implies children_pending(
                model,
                mem0,
                x,
                marked,
                queue@,
            ) by {
                if x != o || marked0.contains(o) {
                    assert(marked0.contains(x));
                    lemma_children_pending_grow(model, mem0, x, marked0, q_before, marked, queue@);
                }
            }
            assert forall|r: int| 0 <= r < roots_s.len() implies #[trigger] marked.contains(roots_s[r])
                || queue@.contains(roots_s[r]) by {
                if !marked0.contains(roots_s[r]) {
                    assert(q_before.contains(roots_s[r]));
                }
            }
            vstd::set_lib::lemma_len_subset(marked, objs);
        }
    }
    proof {
        assert forall|x: u64, t: u64| marked.contains(x) && #[trigger] points_to(model, mem0, x, t) implies marked.contains(
            t,
        ) by {
            assert(children_pending(model, mem0, x, marked, queue@));
            assert(!queue@.contains(t));
        }
        assert forall|r: int|
            0 <= r < model.roots_spec().len() && #[trigger] model.roots_spec()[r] != 0 implies marked.contains(
            model.roots_spec()[r],
        ) by {
            assert(marked.contains(roots_s[r]) || queue@.contains(roots_s[r]));
        }
        lemma_closure_exact(model, mem0, mem@, mark_sense, marked);
    }
    stats
}

/// The non-null values of `s`, in order.
pub open spec fn non_null(s: Seq<u64>) -> Seq<u64>
    decreases s.len(),
{
    if s.len() == 0 {
        s
    } else {
        let r = non_null(s.drop_last());
        if s.last() != 0 {
            r.push(s.last())
        } else {
            r
        }
    }
}

pub(crate) proof fn lemma_non_null_contains(s: Seq<u64>, t: u64)
    ensures
        non_null(s).contains(t) <==> t != 0 && s.contains(t),
    decreases s.len(),
{
    if s.len() > 0 {
        let init = s.drop_last();
        lemma_non_null_contains(init, t);
        let r = non_null(init);
        if non_null(s).contains(t) {
            let i = choose|i: int| 0 <= i < non_null(s).len() && non_null(s)[i] == t;
            if s.last() != 0 && i == r.len() {
                assert(s[s.len() - 1] == t);
            } else {
                assert(r[i] == t);
                let j = choose|j: int| 0 <= j < init.len() && init[j] == t;
                assert(s[j] == t);
            }
        }
        if t != 0 && s.contains(t) {
            let j = choose|j: int| 0 <= j < s.len() && s[j] == t;
            if j == s.len() - 1 {
                assert(non_null(s)[r.len() as int] == t);
            } else {
                assert(init[j] == t);
                let i = choose|i: int| 0 <= i < r.len() && r[i] == t;
                assert(non_null(s)[i] == t);
            }
        }
    }
}

/// The objects `o` refers to, one for each of its non-null slots, in scan
/// order.
pub open spec fn children_of<O: ObjectModel>(model: &O, mem: Map<u64, u64>, o: u64) -> Seq<u64> {
    non_null(slot_values(model, mem, o))
}

pub(crate) proof fn lemma_children_points_to<O: ObjectModel>(model: &O, mem: Map<u64, u64>, o: u64, t: u64)
    ensures
        children_of(model, mem, o).contains(t) <==> points_to(model, mem, o, t),
{
    lemma_non_null_contains(slot_values(model, mem, o), t);
    if points_to(model, mem, o, t) {
        lemma_points_to_slot_value(model, mem, o, t);
    }
    if children_of(model, mem, o).contains(t) {
        let k = choose|k: int| 0 <= k < slot_values(model, mem, o).len() && slot_values(model, mem, o)[k] == t;
        lemma_slot_value_points_to(model, mem, o, k);
    }
}

/// How many references the objects of `s` hold, counted with repeats.
pub open spec fn children_total<O: ObjectModel>(model: &O, mem: Map<u64, u64>, s: Seq<u64>) -> nat
    decreases s.len(),
{
    if s.len() == 0 {
        0
    } else {
        children_total(model, mem, s.drop_last()) + children_of(model, mem, s.last()).len()
    }
}

proof fn lemma_children_total_remove<O: ObjectModel>(model: &O, mem: Map<u64, u64>, s: Seq<u64>, i: int)
    requires
        0 <= i < s.len(),
    ensures
        children_total(model, mem, s) == children_total(model, mem, s.remove(i)) + children_of(
            model,
            mem,
            s[i],
        ).len(),
    decreases s.len(),
{
    if i == s.len() - 1 {
        assert(s.remove(i) =~= s.drop_last());
    } else {
        lemma_children_total_remove(model, mem, s.drop_last(), i);
        assert(s.remove(i).drop_last() =~= s.drop_last().remove(i));
        assert(s.remove(i).last() == s.last());
    }
}

/// The objects marked are objects of the model.
pub(crate) proof fn lemma_order_in_objects<O: ObjectModel>(model: &O, order: Seq<u64>)
    requires
        order.to_set().subset_of(model.objects_spec().to_set()),
    ensures
        forall|i: int| 0 <= i < order.len() ==> model.objects_spec().contains(#[trigger] order[i]),
{
    assert forall|i: int| 0 <= i < order.len() implies model.objects_spec().contains(#[trigger] order[i]) by {
        assert(order.to_set().contains(order[i]));
    }
}

/// Counting the references of distinct objects of `b` counts no more than
/// counting those of all of `b`.
pub(crate) proof fn lemma_children_total_subset<O: ObjectModel>(model: &O, mem: Map<u64, u64>, a: Seq<u64>, b: Seq<u64>)
    requires
        a.no_duplicates(),
        forall|i: int| 0 <= i < a.len() ==> b.contains(#[trigger] a[i]),
    ensures
        children_total(model, mem, a) <= children_total(model, mem, b),
    decreases b.len(),
{
    if b.len() == 0 {
        if a.len() > 0 {
            assert(b.contains(a[0]));
        }
    } else {
        let y = b.last();
        let b1 = b.drop_last();
        if a.contains(y) {
            let i = choose|i: int| 0 <= i < a.len() && a[i] == y;
            let a1 = a.remove(i);
            lemma_children_total_remove(model, mem, a, i);
            assert forall|j: int| 0 <= j < a1.len() implies b1.contains(#[trigger] a1[j]) by {
                let jj = if j < i { j } else { j + 1 };
                assert(a1[j] == a[jj]);
                assert(a[jj] != y);
                assert(b.contains(a[jj]));
                let k = choose|k: int| 0 <= k < b.len() && b[k] == a[jj];
                assert(b1[k] == a[jj]);
            }
            assert(a1.no_duplicates()) by {
                assert forall|p: int, q: int| 0 <= p < a1.len() && 0 <= q < a1.len() && p != q implies a1[p]
                    != a1[q] by {
                    let pp = if p < i { p } else { p + 1 };
                    let qq = if q < i { q } else { q + 1 };
                    assert(a1[p] == a[pp] && a1[q] == a[qq]);
                }
            }
            lemma_children_total_subset(model, mem, a1, b1);
        } else {
            assert forall|j: int| 0 <= j < a.len() implies b1.contains(#[trigger] a[j]) by {
                assert(b.contains(a[j]));
                let k = choose|k: int| 0 <= k < b.len() && b[k] == a[j];
                assert(k != b.len() - 1);
                assert(b1[k] == a[j]);
            }
            lemma_children_total_subset(model, mem, a, b1);
        }
    }
}

/// The progress of a closure that queues objects and marks them as they
/// leave the queue: `order` lists the objects marked so far, each once, and
/// `pending` holds the objects queued but not yet marked by this step.
pub open spec fn closure_state<O: ObjectModel>(
    model: &O,
    mem0: Map<u64, u64>,
    mem: Map<u64, u64>,
    mark_sense: u8,
    order: Seq<u64>,
    pending: Seq<u64>,
) -> bool {
    let objs = model.objects_spec().to_set();
    let marked = order.to_set();
    let roots = model.roots_spec();
    &&& traceable(model, mem0, mark_sense)
    &&& order.no_duplicates()
    &&& marked.subset_of(objs)
    &&& marks_only(mem0, mem, marked, mark_sense)
    &&& forall|x: u64|
        #[trigger] marked.contains(x) ==> is_marked_in(mem, x, mark_sense) && trace_reachable(model, mem0, roots, x)
    &&& forall|i: int|
        0 <= i < pending.len() ==> objs.contains(#[trigger] pending[i]) && trace_reachable(
            model,
            mem0,
            roots,
            pending[i],
        )
    &&& forall|x: u64| #[trigger] marked.contains(x) ==> children_pending(model, mem0, x, marked, pending)
    &&& forall|r: int| 0 <= r < roots.len() ==> #[trigger] marked.contains(roots[r]) || pending.contains(roots[r])
}

/// With every root queued, nothing is marked yet.
pub(crate) proof fn lemma_closure_start<O: ObjectModel>(model: &O, mem0: Map<u64, u64>, mark_sense: u8)
    requires
        traceable(model, mem0, mark_sense),
        forall|i: int| 0 <= i < model.roots_spec().len() ==> #[trigger] model.roots_spec()[i] != 0,
    ensures
        closure_state(model, mem0, mem0, mark_sense, Seq::empty(), model.roots_spec()),
{
    let roots = model.roots_spec();
    let objs = model.objects_spec().to_set();
    assert(Seq::<u64>::empty().to_set() =~= Set::empty());
    assert forall|i: int| 0 <= i < roots.len() implies objs.contains(#[trigger] roots[i]) && trace_reachable(
        model,
        mem0,
        roots,
        roots[i],
    ) by {
        lemma_trace_root(model, mem0, roots, i);
    }
    assert forall|r: int| 0 <= r < roots.len() implies #[trigger] Seq::<u64>::empty().to_set().contains(roots[r])
        || roots.contains(roots[r]) by {
        assert(roots[r] == roots[r]);
    }
}

/// With nothing pending, the marked objects are exactly the reachable ones.
pub(crate) proof fn lemma_closure_done<O: ObjectModel>(
    model: &O,
    mem0: Map<u64, u64>,
    mem: Map<u64, u64>,
    mark_sense: u8,
    order: Seq<u64>,
)
    requires
        closure_state(model, mem0, mem, mark_sense, order, Seq::empty()),
    ensures
        order.len() == reachable_objects(model, mem0, model.roots_spec()).len(),
        order.to_set() == reachable_objects(model, mem0, model.roots_spec()),
        forall|o: u64|
            #[trigger] trace_reachable(model, mem0, model.roots_spec(), o) <==> (model.objects_spec().contains(o)
                && is_marked_in(mem, o, mark_sense)),
        marks_only(mem0, mem, reachable_objects(model, mem0, model.roots_spec()), mark_sense),
{
    let marked = order.to_set();
    let roots = model.roots_spec();
    assert forall|x: u64, t: u64| marked.contains(x) && #[trigger] points_to(model, mem0, x, t) implies marked.contains(
        t,
    ) by {
        assert(children_pending(model, mem0, x, marked, Seq::empty()));
    }
    assert forall|r: int| 0 <= r < roots.len() && #[trigger] roots[r] != 0 implies marked.contains(roots[r]) by {
        assert(marked.contains(roots[r]) || Seq::<u64>::empty().contains(roots[r]));
    }
    lemma_closure_exact(model, mem0, mem, mark_sense, marked);
    order.unique_seq_to_set();
}

/// Taking `o` off the front of the pending objects and marking it (which
/// queues its children when this marks it) keeps the closure's progress.
pub(crate) proof fn lemma_closure_step<O: ObjectModel>(
    model: &O,
    mem0: Map<u64, u64>,
    mem1: Map<u64, u64>,
    mem2: Map<u64, u64>,
    mark_sense: u8,
    order: Seq<u64>,
    o: u64,
    rest: Seq<u64>,
    newly: bool,
    children: Seq<u64>,
)
    requires
        closure_state(model, mem0, mem1, mark_sense, order, seq![o] + rest),
        newly == !order.contains(o),
        newly ==> mem2 == mem1.insert(o, with_byte(word_at(mem1, o), mark_sense, MARK_BYTE_OFFSET as int))
            && children == children_of(model, mem0, o),
        !newly ==> mem2 == mem1 && children == Seq::<u64>::empty(),
    ensures
        closure_state(model, mem0, mem2, mark_sense, if newly { order.push(o) } else { order }, rest + children),
{
    let objs = model.objects_spec().to_set();
    let roots = model.roots_spec();
    let marked = order.to_set();
    let pend = seq![o] + rest;
    let order2 = if newly { order.push(o) } else { order };
    let marked2 = order2.to_set();
    let pend2 = rest + children;
    assert(pend[0] == o);
    assert(objs.contains(o) && trace_reachable(model, mem0, roots, o));
    if newly {
        order.lemma_push_to_set_commute(o);
    }
    assert(marked2 =~= if newly { marked.insert(o) } else { marked });
    assert(marked2.contains(o));
    assert forall|y: u64| #[trigger] pend.contains(y) implies y == o || rest.contains(y) by {
        let i = choose|i: int| 0 <= i < pend.len() && pend[i] == y;
        if i > 0 {
            assert(rest[i - 1] == y);
        }
    }
    assert forall|y: u64| #[trigger] rest.contains(y) implies pend2.contains(y) by {
        let i = choose|i: int| 0 <= i < rest.len() && rest[i] == y;
        assert(pend2[i] == y);
    }
    assert forall|y: u64| #[trigger] children.contains(y) implies pend2.contains(y) by {
        let i = choose|i: int| 0 <= i < children.len() && children[i] == y;
        assert(pend2[rest.len() + i] == y);
    }
    if newly {
        assert(!marked.contains(o));
        assert(word_at(mem1, o) == word_at(mem0, o));
        lemma_marks_only_extend(mem0, mem1, marked, o, mark_sense);
        lemma_mark_byte_of_marked(word_at(mem1, o), mark_sense);
        assert(order2.no_duplicates()) by {
            assert forall|p: int, q: int| 0 <= p < order2.len() && 0 <= q < order2.len() && p != q implies order2[p]
                != order2[q] by {
                if p == order.len() as int {
                    assert(order.contains(order2[q]));
                } else if q == order.len() as int {
                    assert(order.contains(order2[p]));
                }
            }
        }
    }
    assert forall|i: int| 0 <= i < pend2.len() implies objs.contains(#[trigger] pend2[i]) && trace_reachable(
        model,
        mem0,
        roots,
        pend2[i],
    ) by {
        if i < rest.len() {
            assert(pend2[i] == rest[i] && rest[i] == pend[i + 1]);
        } else {
            let t = pend2[i];
            assert(children[i - rest.len()] == t);
            assert(children.contains(t));
            lemma_children_points_to(model, mem0, o, t);
            let s = choose|s: u64| #[trigger] is_slot_of(model, mem0, o, s) && word_at(mem0, s) == t;
            let p = choose|p: Seq<u64>| #[trigger] is_trace_path(model, mem0, roots, p) && p.last() == o;
            lemma_path_extend(model, mem0, roots, p, t);
            assert(p.push(t).last() == t);
        }
    }
    assert forall|x: u64| #[trigger] marked2.contains(x) implies children_pending(model, mem0, x, marked2, pend2) by {
        assert forall|t: u64| #[trigger] points_to(model, mem0, x, t) implies marked2.contains(t) || pend2.contains(t) by {
            if x == o && newly {
                lemma_children_points_to(model, mem0, o, t);
            } else {
                assert(marked.contains(x));
                assert(children_pending(model, mem0, x, marked, pend));
                if pend.contains(t) && t != o {
                    assert(rest.contains(t));
                }
            }
        }
    }
    assert forall|r: int| 0 <= r < roots.len() implies #[trigger] marked2.contains(roots[r]) || pend2.contains(
        roots[r],
    ) by {
        if !marked.contains(roots[r]) {
            assert(pend.contains(roots[r]));
        }
    }
}

/// Marks object `o` and, when this marks it (the flag returned), reads the
/// objects it refers to.
pub(crate) fn mark_and_read_children<O: ObjectModel>(
    model: &O,
    mem: &mut TargetMemory,
    o: u64,
    mark_sense: u8,
    Ghost(mem0): Ghost<Map<u64, u64>>,
    Ghost(order): Ghost<Seq<u64>>,
    Ghost(pending): Ghost<Seq<u64>>,
) -> (r: (bool, Vec<u64>))
    requires
        closure_state(model, mem0, old(mem)@, mark_sense, order, pending),
        pending.len() > 0,
        pending[0] == o,
    ensures
        r.0 == !order.contains(o),
        r.0 ==> final(mem)@ == old(mem)@.insert(
            o,
            with_byte(word_at(old(mem)@, o), mark_sense, MARK_BYTE_OFFSET as int),
        ) && r.1@ == children_of(model, mem0, o),
        !r.0 ==> final(mem)@ == old(mem)@ && r.1@ == Seq::<u64>::empty(),
{
    let ghost objs = model.objects_spec().to_set();
    let ghost marked = order.to_set();
    proof {
        assert(objs.contains(pending[0]));
        if !marked.contains(o) {
            assert(word_at(old(mem)@, o) == word_at(mem0, o));
        }
    }
    let ghost mem_before = mem@;
    let mut children: Vec<u64> = Vec::new();
    let newly = trace_object(mem, o, mark_sense);
    if newly {
        proof {
            lemma_marks_only_extend(mem0, mem_before, marked, o, mark_sense);
            lemma_marks_only_widen(mem0, mem@, marked.insert(o), objs, mark_sense);
            lemma_slot_values_stable(model, mem0, mem@, o, mark_sense);
        }
        let words = slot_words(model, mem, o);
        let mut j: usize = 0;
        while j < words.len()
            invariant
                j <= words@.len(),
                children@ == non_null(words@.subrange(0, j as int)),
            decreases words@.len() - j,
        {
            let w = words[j];
            proof {
                assert(words@.subrange(0, j + 1).drop_last() =~= words@.subrange(0, j as int));
                assert(words@.subrange(0, j + 1).last() == w);
            }
            if w != 0 {
                children.push(w);
            }
            j += 1;
        }
        proof {
            assert(words@.subrange(0, words@.len() as int) =~= words@);
        }
    }
    (newly, children)
}

} // verus!
