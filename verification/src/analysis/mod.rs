//! Heap analyses: how busy an ideal machine of several tracing threads
//! would be on a heap.
pub mod work;
pub mod run;

use vstd::prelude::*;
use std::collections::{HashMap, VecDeque};
use crate::mark::is_marked_in;
use crate::object_model::ObjectModel;
use crate::queue_trace::{
    children_total, closure_state, lemma_children_total_subset, lemma_closure_done, lemma_closure_start,
    lemma_closure_step, lemma_order_in_objects, mark_and_read_children,
};
use crate::target_memory::TargetMemory;
use crate::trace::{is_trace_path, marks_only, points_to, reachable_objects, trace_reachable, traceable};

verus! {

broadcast use vstd::std_specs::hash::group_hash_axioms;

/// The mark sense the analysis traces with.
pub const ANALYSIS_MARK_SENSE: u8 = 1;

/// Every root and every reference of every object, counted once for each
/// of `threads` threads, fits in a `usize`.
pub open spec fn utilization_bound<O: ObjectModel>(model: &O, mem: Map<u64, u64>, threads: usize) -> bool {
    threads * (model.roots_spec().len() + children_total(model, mem, model.objects_spec())) + threads
        <= usize::MAX
}

/// Traces the heap in rounds: each round takes up to `threads` objects off
/// the front of the queue, costs `threads` ticks, keeps one thread busy
/// per object taken, and traces the objects in order, queueing the
/// references of those it marks.  Returns the ticks and the busy ticks.
pub fn utilization_ticks<O: ObjectModel>(threads: usize, model: &O, mem: &mut TargetMemory) -> (r: (usize, usize))
    requires
        threads >= 1,
        traceable(model, old(mem)@, ANALYSIS_MARK_SENSE),
        forall|i: int| 0 <= i < model.roots_spec().len() ==> #[trigger] model.roots_spec()[i] != 0,
        utilization_bound(model, old(mem)@, threads),
    ensures
        exists|order: Seq<u64>|
            #![trigger children_total(model, old(mem)@, order)]
            order.no_duplicates() && order.to_set() == reachable_objects(model, old(mem)@, model.roots_spec())
                && r.1 == model.roots_spec().len() + children_total(model, old(mem)@, order),
        r.0 % threads == 0,
        r.1 <= r.0 <= threads * r.1,
        forall|o: u64|
            #[trigger] trace_reachable(model, old(mem)@, model.roots_spec(), o) <==> (model.objects_spec().contains(o)
                && is_marked_in(final(mem)@, o, ANALYSIS_MARK_SENSE)),
        marks_only(old(mem)@, final(mem)@, reachable_objects(model, old(mem)@, model.roots_spec()), ANALYSIS_MARK_SENSE),
{
    let ghost mem0 = mem@;
    let ghost objs = model.objects_spec().to_set();
    let ghost bound = model.roots_spec().len() + children_total(model, mem0, model.objects_spec());
    let n_objects = model.objects().len();
    proof {
        vstd::seq_lib::seq_to_set_is_finite(model.objects_spec());
        model.objects_spec().lemma_cardinality_of_set();
        lemma_closure_start(model, mem0, ANALYSIS_MARK_SENSE);
        assert(threads * bound + threads <= usize::MAX);
        assert(bound <= threads * bound) by (nonlinear_arith)
            requires
                threads >= 1,
                bound >= 0,
        ;
    }
    let roots = model.roots();
    let mut mark_queue: VecDeque<u64> = VecDeque::new();
    let mut k: usize = 0;
    while k < roots.len()
        invariant
            k <= roots@.len(),
            mark_queue@ == roots@.subrange(0, k as int),
        decreases roots@.len() - k,
    {
        mark_queue.push_back(roots[k]);
        proof {
            assert(roots@.subrange(0, k + 1) =~= roots@.subrange(0, k as int).push(roots@[k as int]));
        }
        k += 1;
    }
    proof {
        assert(roots@.subrange(0, roots@.len() as int) =~= roots@);
    }
    let ghost mut order: Seq<u64> = Seq::empty();
    let mut total_ticks: usize = 0;
    let mut busy_ticks: usize = 0;
    while mark_queue.len() > 0
        invariant
            closure_state(model, mem0, mem@, ANALYSIS_MARK_SENSE, order, mark_queue@),
            objs == model.objects_spec().to_set(),
            objs.finite(),
            objs.len() <= n_objects,
            n_objects == model.objects_spec().len(),
            threads >= 1,
            bound == model.roots_spec().len() + children_total(model, mem0, model.objects_spec()),
            threads * bound + threads <= usize::MAX,
            bound <= threads * bound,
            busy_ticks + mark_queue@.len() == model.roots_spec().len() + children_total(model, mem0, order),
            total_ticks % threads == 0,
            busy_ticks <= total_ticks <= threads * busy_ticks,
        decreases objs.len() - order.len(), mark_queue@.len(),
    {
        let ghost order_start = order;
        let ghost q_start = mark_queue@;
        let ghost busy_start = busy_ticks;
        proof {
            order.unique_seq_to_set();
            vstd::set_lib::lemma_len_subset(order.to_set(), objs);
            lemma_order_in_objects(model, order);
            lemma_children_total_subset(model, mem0, order, model.objects_spec());
        }
        let mut batch: Vec<u64> = Vec::new();
        while batch.len() < threads
            invariant
                batch@.len() <= threads,
                batch@ + mark_queue@ == q_start,
            ensures
                batch@.len() <= threads,
                batch@ + mark_queue@ == q_start,
                batch@.len() == threads || mark_queue@.len() == 0,
            decreases threads - batch@.len(),
        {
            let ghost q_before = mark_queue@;
            match mark_queue.pop_front() {
                Some(o) => {
                    batch.push(o);
                    proof {
                        assert(q_before =~= seq![o] + mark_queue@);
                        assert(batch@ + mark_queue@ =~= q_start);
                    }
                },
                None => {
                    break;
                },
            }
        }
        proof {
            assert(batch@.len() >= 1) by {
                if batch@.len() == 0 {
                    assert(mark_queue@ == q_start);
                }
            }
            assert(batch@.len() <= busy_ticks + mark_queue@.len() + batch@.len());
            assert(total_ticks + threads <= threads * (busy_ticks + batch@.len())) by (nonlinear_arith)
                requires
                    total_ticks <= threads * busy_ticks,
                    batch@.len() >= 1,
                    threads >= 1,
            ;
            assert(busy_ticks + batch@.len() <= bound);
            assert(threads * (busy_ticks + batch@.len()) <= threads * bound) by (nonlinear_arith)
                requires
                    busy_ticks + batch@.len() <= bound,
                    threads >= 1,
            ;
            vstd::arithmetic::div_mod::lemma_mod_add_multiples_vanish(total_ticks as int, threads as int);
            assert(batch@.subrange(0, batch@.len() as int) + mark_queue@ =~= q_start);
            assert(q_start.len() == batch@.len() + mark_queue@.len());
        }
        total_ticks = total_ticks + threads;
        busy_ticks = busy_ticks + batch.len();
        let mut j: usize = 0;
        while j < batch.len()
            invariant
                closure_state(model, mem0, mem@, ANALYSIS_MARK_SENSE, order, batch@.subrange(j as int, batch@.len() as int) + mark_queue@),
                objs == model.objects_spec().to_set(),
                objs.finite(),
                objs.len() <= n_objects,
                n_objects == model.objects_spec().len(),
                j <= batch@.len(),
                busy_ticks + mark_queue@.len() == model.roots_spec().len() + children_total(model, mem0, order),
                order_start.len() <= order.len(),
                order.len() == order_start.len() ==> order == order_start,
                busy_ticks == busy_start + batch@.len(),
                batch@.len() >= 1,
            decreases batch@.len() - j,
        {
            let o = batch[j];
            let ghost pending = batch@.subrange(j as int, batch@.len() as int) + mark_queue@;
            let ghost rest = batch@.subrange(j + 1, batch@.len() as int) + mark_queue@;
            let ghost mem1 = mem@;
            proof {
                assert(pending[0] == o);
                assert(pending =~= seq![o] + rest);
            }
            let (newly, children) = mark_and_read_children(
                model,
                mem,
                o,
                ANALYSIS_MARK_SENSE,
                Ghost(mem0),
                Ghost(order),
                Ghost(pending),
            );
            proof {
                lemma_closure_step(model, mem0, mem1, mem@, ANALYSIS_MARK_SENSE, order, o, rest, newly, children@);
                if newly {
                    assert(order.push(o).drop_last() =~= order);
                    assert(children_total(model, mem0, order.push(o)) == children_total(model, mem0, order)
                        + children@.len());
                    order = order.push(o);
                }
            }
            let ghost q_mid = mark_queue@;
            let mut c: usize = 0;
            while c < children.len()
                invariant
                    c <= children@.len(),
                    mark_queue@ == q_mid + children@.subrange(0, c as int),
                decreases children@.len() - c,
            {
                mark_queue.push_back(children[c]);
                proof {
                    assert(children@.subrange(0, c + 1) =~= children@.subrange(0, c as int).push(children@[c as int]));
                }
                c += 1;
            }
            proof {
                assert(children@.subrange(0, children@.len() as int) =~= children@);
                assert(rest + children@ =~= batch@.subrange(j + 1, batch@.len() as int) + mark_queue@);
            }
            j += 1;
        }
        proof {
            assert(batch@.subrange(batch@.len() as int, batch@.len() as int) + mark_queue@ =~= mark_queue@);
            order.unique_seq_to_set();
            vstd::set_lib::lemma_len_subset(order.to_set(), objs);
        }
    }
    proof {
        lemma_closure_done(model, mem0, mem@, ANALYSIS_MARK_SENSE, order);
        assert(children_total(model, mem0, order) == children_total(model, mem0, order));
    }
    (total_ticks, busy_ticks)
}

/// Object `o` is at the end of a chain of `d + 1` objects from a root.
pub open spec fn at_depth<O: ObjectModel>(model: &O, mem: Map<u64, u64>, o: u64, d: int) -> bool {
    exists|p: Seq<u64>| #[trigger] is_trace_path(model, mem, model.roots_spec(), p) && p.last() == o && p.len() == d + 1
}

/// The count kept for `k` in `m`, zero where there is none.
pub open spec fn hist_count(m: Map<u64, u64>, k: u64) -> int {
    if m.contains_key(k) {
        m[k] as int
    } else {
        0
    }
}

/// How many times each depth occurs in `depths`.
pub open spec fn depth_histogram(depths: Seq<u64>) -> Map<u64, u64>
    decreases depths.len(),
{
    if depths.len() == 0 {
        Map::empty()
    } else {
        let h = depth_histogram(depths.drop_last());
        h.insert(depths.last(), (hist_count(h, depths.last()) + 1) as u64)
    }
}

proof fn lemma_histogram_bound(depths: Seq<u64>, k: u64)
    ensures
        hist_count(depth_histogram(depths), k) <= depths.len(),
    decreases depths.len(),
{
    if depths.len() > 0 {
        lemma_histogram_bound(depths.drop_last(), k);
        lemma_histogram_bound(depths.drop_last(), depths.last());
    }
}

proof fn lemma_at_depth_child<O: ObjectModel>(model: &O, mem: Map<u64, u64>, o: u64, d: int, t: u64)
    requires
        at_depth(model, mem, o, d),
        points_to(model, mem, o, t),
    ensures
        at_depth(model, mem, t, d + 1),
{
    let p = choose|p: Seq<u64>| #[trigger] is_trace_path(model, mem, model.roots_spec(), p) && p.last() == o && p.len()
        == d + 1;
    crate::trace::lemma_path_extend(model, mem, model.roots_spec(), p, t);
    assert(p.push(t).last() == t);
}

/// Traces the heap breadth first from the roots, and counts the objects
/// marked at each depth: the roots are at depth 0, and an object queued by
/// an object of depth `d` is at depth `d + 1`.  Every reachable object is
/// counted once, at the length of a chain of references that leads to it.
pub fn depth_histogram_of<O: ObjectModel>(model: &O, mem: &mut TargetMemory) -> (r: HashMap<u64, u64>)
    requires
        traceable(model, old(mem)@, ANALYSIS_MARK_SENSE),
        forall|i: int| 0 <= i < model.roots_spec().len() ==> #[trigger] model.roots_spec()[i] != 0,
    ensures
        exists|order: Seq<u64>, depths: Seq<u64>|
            #![trigger depth_histogram(depths), order.to_set()]
            order.no_duplicates() && order.to_set() == reachable_objects(model, old(mem)@, model.roots_spec())
                && depths.len() == order.len() && (forall|k: int|
                0 <= k < order.len() ==> at_depth(model, old(mem)@, #[trigger] order[k], depths[k] as int))
                && r@ == depth_histogram(depths),
        forall|o: u64|
            #[trigger] trace_reachable(model, old(mem)@, model.roots_spec(), o) <==> (model.objects_spec().contains(o)
                && is_marked_in(final(mem)@, o, ANALYSIS_MARK_SENSE)),
        marks_only(old(mem)@, final(mem)@, reachable_objects(model, old(mem)@, model.roots_spec()), ANALYSIS_MARK_SENSE),
{
    let ghost mem0 = mem@;
    let ghost objs = model.objects_spec().to_set();
    let n_objects = model.objects().len();
    proof {
        vstd::seq_lib::seq_to_set_is_finite(model.objects_spec());
        model.objects_spec().lemma_cardinality_of_set();
        lemma_closure_start(model, mem0, ANALYSIS_MARK_SENSE);
    }
    let roots = model.roots();
    let mut mark_queue: VecDeque<(u64, u64)> = VecDeque::new();
    let mut k: usize = 0;
    while k < roots.len()
        invariant
            k <= roots@.len(),
            roots@ == model.roots_spec(),
            mark_queue@.len() == k,
            forall|i: int| 0 <= i < k ==> #[trigger] mark_queue@[i] == (roots@[i], 0u64),
        decreases roots@.len() - k,
    {
        mark_queue.push_back((roots[k], 0));
        k += 1;
    }
    proof {
        assert(mark_queue@.map_values(|e: (u64, u64)| e.0) =~= model.roots_spec());
        assert forall|i: int| 0 <= i < mark_queue@.len() implies at_depth(model, mem0, #[trigger] mark_queue@[i].0, mark_queue@[i].1 as int) by {
            let p = seq![model.roots_spec()[i]];
            assert(model.roots_spec().contains(p[0]));
            assert(is_trace_path(model, mem0, model.roots_spec(), p));
        }
    }
    let mut hist: HashMap<u64, u64> = HashMap::new();
    let ghost mut order: Seq<u64> = Seq::empty();
    let ghost mut depths: Seq<u64> = Seq::empty();
    while mark_queue.len() > 0
        invariant
            closure_state(model, mem0, mem@, ANALYSIS_MARK_SENSE, order, mark_queue@.map_values(|e: (u64, u64)| e.0)),
            objs == model.objects_spec().to_set(),
            objs.finite(),
            objs.len() <= n_objects,
            n_objects == model.objects_spec().len(),
            depths.len() == order.len(),
            forall|i: int| 0 <= i < order.len() ==> at_depth(model, mem0, #[trigger] order[i], depths[i] as int),
            forall|i: int| 0 <= i < order.len() ==> #[trigger] depths[i] < order.len(),
            forall|i: int|
                0 <= i < mark_queue@.len() ==> at_depth(model, mem0, #[trigger] mark_queue@[i].0, mark_queue@[i].1 as int)
                    && mark_queue@[i].1 <= order.len(),
            hist@ == depth_histogram(depths),
        decreases objs.len() - order.len(), mark_queue@.len(),
    {
        proof {
            order.unique_seq_to_set();
            vstd::set_lib::lemma_len_subset(order.to_set(), objs);
        }
        let ghost q_before = mark_queue@;
        let ghost pending = q_before.map_values(|e: (u64, u64)| e.0);
        let (o, depth) = mark_queue.pop_front().unwrap();
        let ghost rest = mark_queue@.map_values(|e: (u64, u64)| e.0);
        let ghost mem1 = mem@;
        proof {
            assert(pending =~= seq![o] + rest);
            assert(at_depth(model, mem0, q_before[0].0, q_before[0].1 as int));
        }
        let (newly, children) = mark_and_read_children(
            model,
            mem,
            o,
            ANALYSIS_MARK_SENSE,
            Ghost(mem0),
            Ghost(order),
            Ghost(pending),
        );
        proof {
            lemma_closure_step(model, mem0, mem1, mem@, ANALYSIS_MARK_SENSE, order, o, rest, newly, children@);
        }
        if newly {
            proof {
                lemma_histogram_bound(depths, depth);
                assert(order.push(o).no_duplicates());
                order.push(o).unique_seq_to_set();
                order.lemma_push_to_set_commute(o);
                vstd::set_lib::lemma_len_subset(order.push(o).to_set(), objs);
            }
            let count: u64 = match hist.get(&depth) {
                Some(c) => *c,
                None => 0,
            };
            hist.insert(depth, count + 1);
            proof {
                assert(depths.push(depth).drop_last() =~= depths);
                order = order.push(o);
                depths = depths.push(depth);
            }
        }
        let ghost q_mid = mark_queue@;
        let mut c: usize = 0;
        while c < children.len()
            invariant
                c <= children@.len(),
                mark_queue@.len() == q_mid.len() + c,
                forall|i: int| 0 <= i < q_mid.len() ==> #[trigger] mark_queue@[i] == q_mid[i],
                forall|i: int| 0 <= i < c ==> #[trigger] mark_queue@[q_mid.len() + i] == (children@[i], (depth + 1) as u64),
                newly ==> depth < order.len() <= n_objects,
                !newly ==> c == 0 && children@.len() == 0,
            decreases children@.len() - c,
        {
            mark_queue.push_back((children[c], depth + 1));
            c += 1;
        }
        proof {
            assert forall|k: int| q_mid.len() <= k < mark_queue@.len() implies #[trigger] mark_queue@[k] == (
                children@[k - q_mid.len()],
                (depth + 1) as u64,
            ) by {
                let j = k - q_mid.len();
                assert(mark_queue@[q_mid.len() + j] == (children@[j], (depth + 1) as u64));
            }
            assert(mark_queue@.map_values(|e: (u64, u64)| e.0) =~= rest + children@);
            assert forall|i: int| 0 <= i < mark_queue@.len() implies at_depth(model, mem0, #[trigger] mark_queue@[i].0, mark_queue@[i].1 as int)
                && mark_queue@[i].1 <= order.len() by {
                if i < q_mid.len() {
                    assert(mark_queue@[i] == q_mid[i]);
                    assert(q_mid[i] == q_before[i + 1]);
                    assert(at_depth(model, mem0, q_before[i + 1].0, q_before[i + 1].1 as int));
                } else {
                    let t = children@[i - q_mid.len()];
                    assert(children@.contains(t));
                    crate::queue_trace::lemma_children_points_to(model, mem0, o, t);
                    lemma_at_depth_child(model, mem0, o, depth as int, t);
                }
            }
            order.unique_seq_to_set();
            vstd::set_lib::lemma_len_subset(order.to_set(), objs);
        }
    }
    proof {
        lemma_closure_done(model, mem0, mem@, ANALYSIS_MARK_SENSE, order);
    }
    hist
}

} // verus!
