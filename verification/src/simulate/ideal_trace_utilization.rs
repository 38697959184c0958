//! An idealised tracing machine: every tick, each processor takes one
//! object off a shared queue and traces it; the objects it marks put their
//! references back on the queue at the end of the tick.
use vstd::prelude::*;
use std::collections::VecDeque;
use crate::mark::is_marked_in;
use crate::object_model::ObjectModel;
use crate::queue_trace::{
    children_of, children_total, closure_state, lemma_children_total_subset, lemma_closure_done,
    lemma_closure_start, lemma_closure_step, lemma_order_in_objects, mark_and_read_children,
};
use crate::target_memory::TargetMemory;
use crate::trace::{marks_only, reachable_objects, trace_reachable, traceable};

verus! {

/// The mark sense the simulation traces with.
pub const SIMULATION_MARK_SENSE: u8 = 1;

/// The counters of one processor.
#[derive(Debug, Clone, Copy, PartialEq, Eq, Structural)]
pub struct ITUProcessor {
    pub busy_ticks: usize,
    pub marked_objects: usize,
}

/// Busy ticks of all of `ps`.
pub open spec fn busy_sum(ps: Seq<ITUProcessor>) -> int
    decreases ps.len(),
{
    if ps.len() == 0 {
        0
    } else {
        busy_sum(ps.drop_last()) + ps.last().busy_ticks
    }
}

/// Objects marked by all of `ps`.
pub open spec fn marked_sum(ps: Seq<ITUProcessor>) -> int
    decreases ps.len(),
{
    if ps.len() == 0 {
        0
    } else {
        marked_sum(ps.drop_last()) + ps.last().marked_objects
    }
}

proof fn lemma_sums_update(ps: Seq<ITUProcessor>, i: int, p: ITUProcessor)
    requires
        0 <= i < ps.len(),
    ensures
        busy_sum(ps.update(i, p)) == busy_sum(ps) - ps[i].busy_ticks + p.busy_ticks,
        marked_sum(ps.update(i, p)) == marked_sum(ps) - ps[i].marked_objects + p.marked_objects,
    decreases ps.len(),
{
    if i < ps.len() - 1 {
        lemma_sums_update(ps.drop_last(), i, p);
        assert(ps.update(i, p).drop_last() =~= ps.drop_last().update(i, p));
    } else {
        assert(ps.update(i, p).drop_last() =~= ps.drop_last());
    }
}

proof fn lemma_sums_zero(ps: Seq<ITUProcessor>)
    requires
        forall|i: int| 0 <= i < ps.len() ==> #[trigger] ps[i] == (ITUProcessor { busy_ticks: 0, marked_objects: 0 }),
    ensures
        busy_sum(ps) == 0,
        marked_sum(ps) == 0,
    decreases ps.len(),
{
    if ps.len() > 0 {
        lemma_sums_zero(ps.drop_last());
    }
}

impl ITUProcessor {
    /// A processor that has done nothing yet.
    pub fn new() -> (r: Self)
        ensures
            r == (ITUProcessor { busy_ticks: 0, marked_objects: 0 }),
    {
        ITUProcessor { busy_ticks: 0, marked_objects: 0 }
    }

    /// Traces `o`, if there is one: the tick is busy, and when this marks
    /// `o`, the objects it refers to come back.
    fn tick<O: ObjectModel>(
        &mut self,
        model: &O,
        mem: &mut TargetMemory,
        o: Option<u64>,
        Ghost(mem0): Ghost<Map<u64, u64>>,
        Ghost(order): Ghost<Seq<u64>>,
        Ghost(pending): Ghost<Seq<u64>>,
    ) -> (r: Vec<u64>)
        requires
            o matches Some(x) ==> {
                &&& closure_state(model, mem0, old(mem)@, SIMULATION_MARK_SENSE, order, pending)
                &&& pending.len() > 0
                &&& pending[0] == x
                &&& old(self).busy_ticks < usize::MAX
                &&& !order.contains(x) ==> old(self).marked_objects < usize::MAX
            },
        ensures
            o is None ==> *final(self) == *old(self) && final(mem)@ == old(mem)@ && r@ == Seq::<u64>::empty(),
            o matches Some(x) ==> {
                &&& final(self).busy_ticks == old(self).busy_ticks + 1
                &&& !order.contains(x) ==> final(self).marked_objects == old(self).marked_objects + 1
                &&& order.contains(x) ==> final(self).marked_objects == old(self).marked_objects
                &&& !order.contains(x) ==> final(mem)@ == old(mem)@.insert(
                    x,
                    crate::header::with_byte(
                        crate::target_memory::word_at(old(mem)@, x),
                        SIMULATION_MARK_SENSE,
                        crate::header::MARK_BYTE_OFFSET as int,
                    ),
                ) && r@ == children_of(model, mem0, x)
                &&& order.contains(x) ==> final(mem)@ == old(mem)@ && r@ == Seq::<u64>::empty()
            },
    {
        match o {
            None => Vec::new(),
            Some(x) => {
                self.busy_ticks = self.busy_ticks + 1;
                let (newly, children) = mark_and_read_children(
                    model,
                    mem,
                    x,
                    SIMULATION_MARK_SENSE,
                    Ghost(mem0),
                    Ghost(order),
                    Ghost(pending),
                );
                if newly {
                    self.marked_objects = self.marked_objects + 1;
                }
                children
            },
        }
    }
}

proof fn lemma_busy_le_sum(ps: Seq<ITUProcessor>, i: int)
    requires
        0 <= i < ps.len(),
    ensures
        ps[i].busy_ticks <= busy_sum(ps),
        ps[i].marked_objects <= marked_sum(ps),
    decreases ps.len(),
{
    if i < ps.len() - 1 {
        lemma_busy_le_sum(ps.drop_last(), i);
    }
    lemma_sums_nonneg(ps.drop_last());
}

proof fn lemma_sums_nonneg(ps: Seq<ITUProcessor>)
    ensures
        busy_sum(ps) >= 0,
        marked_sum(ps) >= 0,
    decreases ps.len(),
{
    if ps.len() > 0 {
        lemma_sums_nonneg(ps.drop_last());
    }
}

proof fn lemma_prefix_sums(ps: Seq<ITUProcessor>, i: int)
    requires
        0 <= i <= ps.len(),
    ensures
        busy_sum(ps.subrange(0, i)) <= busy_sum(ps),
        marked_sum(ps.subrange(0, i)) <= marked_sum(ps),
    decreases ps.len() - i,
{
    if i < ps.len() {
        lemma_prefix_sums(ps, i + 1);
        let sub = ps.subrange(0, i + 1);
        assert(sub.drop_last() =~= ps.subrange(0, i));
    } else {
        assert(ps.subrange(0, i) =~= ps);
    }
}

/// Every root, and every reference of every object, can be counted in a
/// `usize` with room to spare.
pub open spec fn queue_bound<O: ObjectModel>(model: &O, mem: Map<u64, u64>) -> bool {
    model.roots_spec().len() + children_total(model, mem, model.objects_spec()) + 2 <= usize::MAX
}

/// The sums over all processors after a run.
#[derive(Debug, Clone, Copy, PartialEq, Eq, Structural)]
pub struct ITUStats {
    pub ticks: usize,
    pub marked_objects: usize,
    pub busy_ticks: usize,
    pub processors: usize,
}

/// The machine: its processors, the shared queue of objects to trace and
/// the ticks so far.
pub struct IdealTraceUtilization {
    processors: Vec<ITUProcessor>,
    tracing_queue: VecDeque<u64>,
    ticks: usize,
    mem0: Ghost<Map<u64, u64>>,
    order: Ghost<Seq<u64>>,
    pops: Ghost<nat>,
}

impl IdealTraceUtilization {
    /// The memory the run started from.
    pub closed spec fn start_memory(&self) -> Map<u64, u64> {
        self.mem0@
    }

    /// The objects marked so far, in the order they were marked.
    pub closed spec fn marked_order(&self) -> Seq<u64> {
        self.order@
    }

    /// How many objects have been taken off the queue so far.
    pub closed spec fn taken(&self) -> nat {
        self.pops@
    }

    /// The queue of objects to trace.
    pub closed spec fn queue(&self) -> Seq<u64> {
        self.tracing_queue@
    }

    /// Ticks so far.
    pub closed spec fn tick_count(&self) -> usize {
        self.ticks
    }

    /// The processors' counters.
    pub closed spec fn processor_list(&self) -> Seq<ITUProcessor> {
        self.processors@
    }

    /// The machine is tracing the heap of `model` and memory is `mem`.
    pub closed spec fn wf<O: ObjectModel>(&self, model: &O, mem: Map<u64, u64>) -> bool {
        &&& closure_state(model, self.mem0@, mem, SIMULATION_MARK_SENSE, self.order@, self.tracing_queue@)
        &&& queue_bound(model, self.mem0@)
        &&& self.pops@ + self.tracing_queue@.len() == model.roots_spec().len() + children_total(
            model,
            self.mem0@,
            self.order@,
        )
        &&& busy_sum(self.processors@) == self.pops@
        &&& marked_sum(self.processors@) == self.order@.len()
        &&& self.processors@.len() >= 1
        &&& self.ticks <= self.pops@ + 1
        &&& self.pops@ <= self.processors@.len() * self.ticks
    }

    /// A machine of `processors` processors whose queue holds the roots.
    /// Roots must not be null: tracing one would dereference it.
    pub fn new<O: ObjectModel>(processors: usize, model: &O, mem: &TargetMemory) -> (r: Self)
        requires
            processors >= 1,
            traceable(model, mem@, SIMULATION_MARK_SENSE),
            forall|i: int| 0 <= i < model.roots_spec().len() ==> #[trigger] model.roots_spec()[i] != 0,
            queue_bound(model, mem@),
        ensures
            r.wf(model, mem@),
            r.start_memory() == mem@,
            r.tick_count() == 0,
            r.queue() == model.roots_spec(),
            r.processor_list().len() == processors,
    {
        let roots = model.roots();
        let mut queue: VecDeque<u64> = VecDeque::new();
        let mut k: usize = 0;
        while k < roots.len()
            invariant
                k <= roots@.len(),
                queue@ == roots@.subrange(0, k as int),
            decreases roots@.len() - k,
        {
            queue.push_back(roots[k]);
            proof {
                assert(roots@.subrange(0, k + 1) =~= roots@.subrange(0, k as int).push(roots@[k as int]));
            }
            k += 1;
        }
        let mut ps: Vec<ITUProcessor> = Vec::new();
        let mut i: usize = 0;
        while i < processors
            invariant
                i <= processors,
                ps@.len() == i,
                forall|j: int| 0 <= j < i ==> #[trigger] ps@[j] == (ITUProcessor { busy_ticks: 0, marked_objects: 0 }),
            decreases processors - i,
        {
            ps.push(ITUProcessor::new());
            i += 1;
        }
        proof {
            assert(roots@.subrange(0, roots@.len() as int) =~= roots@);
            lemma_closure_start(model, mem@, SIMULATION_MARK_SENSE);
            lemma_sums_zero(ps@);
        }
        IdealTraceUtilization {
            processors: ps,
            tracing_queue: queue,
            ticks: 0,
            mem0: Ghost(mem@),
            order: Ghost(Seq::empty()),
            pops: Ghost(0),
        }
    }

    /// One tick: each processor in turn takes the next object off the
    /// queue, if any, and traces it; the references of the objects marked
    /// go onto the queue at the end.  Returns whether the queue is empty.
    pub fn tick<O: ObjectModel>(&mut self, model: &O, mem: &mut TargetMemory) -> (done: bool)
        requires
            old(self).wf(model, old(mem)@),
            old(self).queue().len() > 0 || old(self).tick_count() == 0,
        ensures
            final(self).wf(model, final(mem)@),
            final(self).start_memory() == old(self).start_memory(),
            final(self).tick_count() == old(self).tick_count() + 1,
            final(self).processor_list().len() == old(self).processor_list().len(),
            done == (final(self).queue().len() == 0),
            old(self).queue().len() == 0 ==> final(self).queue().len() == 0,
            final(self).marked_order().len() >= old(self).marked_order().len(),
            old(self).queue().len() > 0 ==> final(self).marked_order().len() > old(self).marked_order().len()
                || final(self).queue().len() < old(self).queue().len(),
    {
        let ghost mem0 = self.mem0@;
        let ghost mut order = self.order@;
        let ghost mut pops = self.pops@;
        let ghost order_start = order;
        let ghost pops_start = pops;
        let ghost q_start = self.tracing_queue@;
        let n_objects = model.objects().len();
        proof {
            vstd::seq_lib::seq_to_set_is_finite(model.objects_spec());
            model.objects_spec().lemma_cardinality_of_set();
            lemma_order_in_objects(model, order);
                lemma_children_total_subset(model, mem0, order, model.objects_spec());
        }
        self.ticks = self.ticks + 1;
        let ghost plen = self.processors@.len();
        let ghost ticks_now = self.ticks;
        let mut append: Vec<u64> = Vec::new();
        let mut i: usize = 0;
        while i < self.processors.len()
            invariant
                mem0 == self.mem0@,
                self.processors@.len() == plen,
                self.ticks == ticks_now,
                ticks_now == old(self).ticks + 1,
                model.objects_spec().to_set().finite(),
                model.objects_spec().to_set().len() <= n_objects,
                pops_start <= plen * old(self).ticks,
                old(self).ticks <= pops_start + 1,
                closure_state(model, mem0, mem@, SIMULATION_MARK_SENSE, order, self.tracing_queue@ + append@),
                queue_bound(model, mem0),
                n_objects == model.objects_spec().len(),
                pops + self.tracing_queue@.len() + append@.len() == model.roots_spec().len() + children_total(
                    model,
                    mem0,
                    order,
                ),
                busy_sum(self.processors@) == pops,
                marked_sum(self.processors@) == order.len(),
                self.processors@.len() >= 1,
                i <= self.processors@.len(),
                pops_start <= pops <= pops_start + i,
                order_start.len() <= order.len(),
                order.len() == order_start.len() ==> order == order_start,
                q_start.len() > 0 && i > 0 ==> pops > pops_start,
                q_start.len() == 0 ==> pops == pops_start && self.tracing_queue@.len() == 0 && append@.len() == 0
                    && order == order_start,
                q_start.len() > 0 && i == 0 ==> self.tracing_queue@ == q_start && pops == pops_start && order
                    == order_start && append@.len() == 0,
            decreases self.processors@.len() - i,
        {
            let ghost q_before = self.tracing_queue@;
            let ghost pending = self.tracing_queue@ + append@;
            let o = self.tracing_queue.pop_front();
            let mut p = self.processors[i];
            proof {
                let objs = model.objects_spec().to_set();
                order.unique_seq_to_set();
                vstd::set_lib::lemma_len_subset(order.to_set(), objs);
                lemma_order_in_objects(model, order);
                lemma_children_total_subset(model, mem0, order, model.objects_spec());
                lemma_busy_le_sum(self.processors@, i as int);
                if let Some(x) = o {
                    assert(pending[0] == x);
                    if !order.contains(x) {
                        assert(objs.contains(x));
                        vstd::set_lib::lemma_len_subset(order.to_set().insert(x), objs);
                        assert(order.push(x).no_duplicates()) by {
                            assert forall|a: int, b: int|
                                0 <= a < order.len() + 1 && 0 <= b < order.len() + 1 && a != b implies order.push(x)[a]
                                != order.push(x)[b] by {
                                if a == order.len() as int {
                                    assert(order.contains(order.push(x)[b]));
                                } else if b == order.len() as int {
                                    assert(order.contains(order.push(x)[a]));
                                }
                            }
                        }
                        order.push(x).unique_seq_to_set();
                        order.lemma_push_to_set_commute(x);
                    }
                }
            }
            let ghost mem1 = mem@;
            let children = p.tick(model, mem, o, Ghost(mem0), Ghost(order), Ghost(pending));
            proof {
                lemma_sums_update(self.processors@, i as int, p);
                if let Some(x) = o {
                    let rest = self.tracing_queue@ + append@;
                    assert(pending =~= seq![x] + rest);
                    let newly = !order.contains(x);
                    lemma_closure_step(model, mem0, mem1, mem@, SIMULATION_MARK_SENSE, order, x, rest, newly, children@);
                    assert(rest + children@ =~= self.tracing_queue@ + (append@ + children@));
                    if newly {
                        assert(order.push(x).drop_last() =~= order);
                        order = order.push(x);
                    }
                    pops = pops + 1;
                } else {
                    assert(q_before.len() == 0);
                }
            }
            self.processors.set(i, p);
            let mut c: usize = 0;
            let ghost append_before = append@;
            while c < children.len()
                invariant
                    c <= children@.len(),
                    append@ == append_before + children@.subrange(0, c as int),
                decreases children@.len() - c,
            {
                append.push(children[c]);
                proof {
                    assert(children@.subrange(0, c + 1) =~= children@.subrange(0, c as int).push(children@[c as int]));
                }
                c += 1;
            }
            proof {
                assert(children@.subrange(0, children@.len() as int) =~= children@);
            }
            i += 1;
        }
        let ghost q_mid = self.tracing_queue@;
        let ghost procs_mid = self.processors@;
        let mut c: usize = 0;
        while c < append.len()
            invariant
                self.processors@ == procs_mid,
                self.ticks == ticks_now,
                self.mem0@ == mem0,
                c <= append@.len(),
                self.tracing_queue@ == q_mid + append@.subrange(0, c as int),
            decreases append@.len() - c,
        {
            self.tracing_queue.push_back(append[c]);
            proof {
                assert(append@.subrange(0, c + 1) =~= append@.subrange(0, c as int).push(append@[c as int]));
            }
            c += 1;
        }
        proof {
            assert(append@.subrange(0, append@.len() as int) =~= append@);
            assert(pops <= pops_start + self.processors@.len());
            assert(pops_start <= self.processors@.len() * (self.ticks - 1));
            assert(pops <= self.processors@.len() * self.ticks) by (nonlinear_arith)
                requires
                    pops <= pops_start + self.processors@.len(),
                    pops_start <= self.processors@.len() * (self.ticks - 1),
            ;
        }
        self.order = Ghost(order);
        self.pops = Ghost(pops);
        self.tracing_queue.len() == 0
    }

    /// Ticks until the queue runs dry.
    pub fn run<O: ObjectModel>(&mut self, model: &O, mem: &mut TargetMemory)
        requires
            old(self).wf(model, old(mem)@),
            old(self).tick_count() == 0,
        ensures
            final(self).wf(model, final(mem)@),
            final(self).start_memory() == old(self).start_memory(),
            final(self).queue().len() == 0,
            final(self).tick_count() >= 1,
            final(self).processor_list().len() == old(self).processor_list().len(),
    {
        let ghost objs = model.objects_spec().to_set();
        let ghost mem0 = self.mem0@;
        let ghost plen = self.processors@.len();
        proof {
            vstd::seq_lib::seq_to_set_is_finite(model.objects_spec());
        }
        loop
            invariant_except_break
                self.queue().len() > 0 || self.tick_count() == 0,
            invariant
                self.wf(model, mem@),
                self.start_memory() == mem0,
                self.processor_list().len() == plen,
                objs == model.objects_spec().to_set(),
                objs.finite(),
            ensures
                self.wf(model, mem@),
                self.start_memory() == mem0,
                self.processor_list().len() == plen,
                self.queue().len() == 0,
                self.tick_count() >= 1,
            decreases objs.len() - self.marked_order().len(), self.queue().len(),
        {
            proof {
                self.order@.unique_seq_to_set();
                vstd::set_lib::lemma_len_subset(self.order@.to_set(), objs);
            }
            let stop = self.tick(model, mem);
            proof {
                self.order@.unique_seq_to_set();
                vstd::set_lib::lemma_len_subset(self.order@.to_set(), objs);
            }
            if stop {
                break;
            }
        }
    }

    /// The tick count and the sums of the processors' counters.
    pub fn stats<O: ObjectModel>(&self, model: &O, mem: &TargetMemory) -> (r: ITUStats)
        requires
            self.wf(model, mem@),
        ensures
            r.ticks == self.tick_count(),
            r.busy_ticks == busy_sum(self.processor_list()),
            r.marked_objects == marked_sum(self.processor_list()),
            r.processors == self.processor_list().len(),
    {
        proof {
            let objs = model.objects_spec().to_set();
            vstd::seq_lib::seq_to_set_is_finite(model.objects_spec());
            model.objects_spec().lemma_cardinality_of_set();
            self.order@.unique_seq_to_set();
            vstd::set_lib::lemma_len_subset(self.order@.to_set(), objs);
            lemma_order_in_objects(model, self.order@);
            lemma_children_total_subset(model, self.mem0@, self.order@, model.objects_spec());
        }
        let n_objects = model.objects().len();
        let mut busy: usize = 0;
        let mut marked: usize = 0;
        let mut i: usize = 0;
        while i < self.processors.len()
            invariant
                i <= self.processors@.len(),
                busy == busy_sum(self.processors@.subrange(0, i as int)),
                marked == marked_sum(self.processors@.subrange(0, i as int)),
                busy_sum(self.processors@) <= usize::MAX,
                marked_sum(self.processors@) <= n_objects,
            decreases self.processors@.len() - i,
        {
            proof {
                lemma_prefix_sums(self.processors@, i + 1);
                let sub = self.processors@.subrange(0, i + 1);
                assert(sub.drop_last() =~= self.processors@.subrange(0, i as int));
            }
            busy = busy + self.processors[i].busy_ticks;
            marked = marked + self.processors[i].marked_objects;
            i += 1;
        }
        proof {
            assert(self.processors@.subrange(0, self.processors@.len() as int) =~= self.processors@);
        }
        ITUStats { ticks: self.ticks, marked_objects: marked, busy_ticks: busy, processors: self.processors.len() }
    }
}

/// Runs the machine with `processors` processors over the heap until the
/// queue runs dry.  It marks exactly the reachable objects, once each; the
/// processors are busy once for each root and once for each reference of
/// each object marked; every tick but the last finds work.
pub fn simulate_ideal_trace_utilization<O: ObjectModel>(processors: usize, model: &O, mem: &mut TargetMemory) -> (r:
    ITUStats)
    requires
        processors >= 1,
        traceable(model, old(mem)@, SIMULATION_MARK_SENSE),
        forall|i: int| 0 <= i < model.roots_spec().len() ==> #[trigger] model.roots_spec()[i] != 0,
        queue_bound(model, old(mem)@),
    ensures
        r.processors == processors,
        r.marked_objects == reachable_objects(model, old(mem)@, model.roots_spec()).len(),
        exists|order: Seq<u64>|
            #![trigger children_total(model, old(mem)@, order)]
            order.no_duplicates() && order.to_set() == reachable_objects(model, old(mem)@, model.roots_spec())
                && r.busy_ticks == model.roots_spec().len() + children_total(model, old(mem)@, order),
        r.busy_ticks <= processors * r.ticks,
        1 <= r.ticks <= r.busy_ticks + 1,
        forall|o: u64|
            #[trigger] trace_reachable(model, old(mem)@, model.roots_spec(), o) <==> (model.objects_spec().contains(o)
                && is_marked_in(final(mem)@, o, SIMULATION_MARK_SENSE)),
        marks_only(
            old(mem)@,
            final(mem)@,
            reachable_objects(model, old(mem)@, model.roots_spec()),
            SIMULATION_MARK_SENSE,
        ),
{
    let mut machine = IdealTraceUtilization::new(processors, model, mem);
    machine.run(model, mem);
    let r = machine.stats(model, mem);
    proof {
        let order = machine.order@;
        assert(machine.tracing_queue@ =~= Seq::<u64>::empty());
        lemma_closure_done(model, old(mem)@, mem@, SIMULATION_MARK_SENSE, order);
        assert(children_total(model, old(mem)@, order) == children_total(model, old(mem)@, order));
    }
    r
}

} // verus!
