//! A near-memory GC: one processor per memory rank, each with a data
//! cache, tracing the objects it owns and sending the others to their
//! owners.  Each tick a processor either waits out the latency of its
//! current work, or takes the next work off its queue: marking an object
//! (and queueing loads of its slots), loading a slot (and queueing the
//! child, or a message for the child's owner), reading its inbox, sending
//! a message, or idling.
use vstd::prelude::*;
use std::collections::VecDeque;
use crate::header::{with_byte, MARK_BYTE_OFFSET};
use crate::mark::{is_marked_in, trace_object};
use crate::object_model::ObjectModel;
use crate::simulate::cache::{cache_stats_room, CacheStats};
use crate::simulate::data_cache::{data_set_index, line_latency, set_line_access, SetAssociativeCache};
use crate::simulate::lru_cache::{key_position, lru_entries};
use crate::simulate::memory::line_of;
use crate::target_memory::{word_at, TargetMemory};
use crate::trace::{expand_chunks, is_slot_of, lemma_expand_contains, mark_bytes_only, push_slots};

verus! {

/// Objects are owned in blocks of `2^16` bytes, dealt round-robin.
pub const NMP_OWNER_SHIFT: u64 = 16;

/// The processor that owns address `o` among `2^log` processors.
pub open spec fn nmp_owner(o: u64, log: u64) -> u64 {
    (o & ((((1u64 << log) - 1) as u64) << NMP_OWNER_SHIFT)) >> NMP_OWNER_SHIFT
}

/// The processor that owns address `o` among `2^log` processors.
pub fn get_owner_thread(o: u64, log: u64) -> (r: u64)
    requires
        log < 48,
    ensures
        r == nmp_owner(o, log),
        r < (1u64 << log),
{
    assert((1u64 << log) >= 1) by (bit_vector)
        requires
            log < 48,
    ;
    let mask = ((1u64 << log) - 1) << NMP_OWNER_SHIFT;
    let r = (o & mask) >> NMP_OWNER_SHIFT;
    assert(((o & ((((1u64 << log) - 1) as u64) << 16u64)) >> 16u64) < (1u64 << log)) by (bit_vector)
        requires
            log < 48,
    ;
    r
}

/// A message to processor `recipient`: mark `object`.
#[derive(Debug, Clone, Copy, PartialEq, Eq, Structural)]
pub struct NMPMessage {
    pub recipient: u64,
    pub object: u64,
}

/// A piece of work of a processor.
#[derive(Debug, Clone, Copy, PartialEq, Eq, Structural)]
pub enum NMPProcessorWork {
    /// Mark an object and queue loads of its slots.
    Mark(u64),
    /// Load a slot and queue its child.
    Load(u64),
    Idle,
    ReadInbox,
    SendMessage(NMPMessage),
}

/// The latency of accessing `addr` through cache `c`.
pub open spec fn cached_latency(c: SetAssociativeCache, addr: u64) -> usize {
    line_latency(
        key_position(lru_entries(c.set_list()[data_set_index(addr, c.set_list().len())]), line_of(addr)) is Some,
        c.dram(),
        addr,
    )
}

/// The ticks work `w` takes with cache `c`.
pub open spec fn work_latency(c: SetAssociativeCache, w: NMPProcessorWork) -> usize {
    match w {
        NMPProcessorWork::Mark(o) => cached_latency(c, o),
        NMPProcessorWork::Load(e) => cached_latency(c, e),
        NMPProcessorWork::Idle => 1,
        NMPProcessorWork::ReadInbox => 2,
        NMPProcessorWork::SendMessage(_) => 10,
    }
}

/// What loading `child` from a slot queues on processor `id`: nothing for
/// null, marking it when `id` owns it, else a message to its owner.
pub open spec fn load_followup(child: u64, id: usize, log: u64) -> Seq<NMPProcessorWork> {
    if child == 0 {
        Seq::empty()
    } else if nmp_owner(child, log) == id {
        seq![NMPProcessorWork::Mark(child)]
    } else {
        seq![NMPProcessorWork::SendMessage(NMPMessage { recipient: nmp_owner(child, log), object: child })]
    }
}

/// The loads of the slots of `o`, in scan order.
pub open spec fn slot_loads<O: ObjectModel>(model: &O, m: Map<u64, u64>, o: u64) -> Seq<NMPProcessorWork> {
    expand_chunks(model.scan_chunks(m, o)).map_values(|e: u64| NMPProcessorWork::Load(e))
}

/// A processor of the near-memory GC.
pub struct NMPProcessor {
    pub id: usize,
    pub log_num_threads: u64,
    /// Ticks so far, in step with the machine.
    pub ticks: usize,
    /// Ticks spent on anything but idling.
    pub busy_ticks: usize,
    pub marked_objects: usize,
    pub inbox: Vec<NMPMessage>,
    pub works: VecDeque<NMPProcessorWork>,
    /// The work whose latency is being waited out.
    pub stalled_work: Option<NMPProcessorWork>,
    /// Ticks left to wait before the stalled work is done.
    pub stall_ticks: usize,
    pub cache: SetAssociativeCache,
}

/// Memory `m` can be traced: whatever mark bytes of objects change, every
/// object stays scannable with the same slots holding the same words; and
/// every slot of an object holds null or an object.
pub open spec fn nmp_heap<O: ObjectModel>(model: &O, m: Map<u64, u64>) -> bool {
    let objs = model.objects_spec().to_set();
    &&& forall|m2: Map<u64, u64>, o: u64|
        mark_bytes_only(m, m2, objs) && #[trigger] objs.contains(o) ==> #[trigger] model.can_scan(m2, o)
            && model.scan_chunks(m2, o) == model.scan_chunks(m, o) && forall|s: u64|
            #[trigger] is_slot_of(model, m, o, s) ==> word_at(m2, s) == word_at(m, s)
    &&& forall|o: u64, s: u64|
        objs.contains(o) && #[trigger] is_slot_of(model, m, o, s) && word_at(m, s) != 0 ==> objs.contains(word_at(m, s))
}

/// Work `w` is about objects of the heap: a mark or a message names an
/// object, a load a slot of one.
pub open spec fn work_ok<O: ObjectModel>(model: &O, m: Map<u64, u64>, w: NMPProcessorWork) -> bool {
    &&& w is Mark ==> model.objects_spec().to_set().contains(w->Mark_0)
    &&& w is Load ==> exists|o: u64| #[trigger] model.objects_spec().to_set().contains(o) && is_slot_of(model, m, o, w->Load_0)
    &&& w is SendMessage ==> model.objects_spec().to_set().contains(w->SendMessage_0.object)
}

/// Every work, stalled work and inbox message of `p` is about objects of
/// the heap, its cache is well formed and its number of processors fits.
pub open spec fn processor_ok<O: ObjectModel>(model: &O, m: Map<u64, u64>, p: NMPProcessor) -> bool {
    &&& forall|i: int| 0 <= i < p.works@.len() ==> #[trigger] work_ok(model, m, p.works@[i])
    &&& (p.stalled_work matches Some(w) ==> work_ok(model, m, w))
    &&& forall|i: int| 0 <= i < p.inbox@.len() ==> model.objects_spec().to_set().contains(#[trigger] p.inbox@[i].object)
    &&& forall|i: int| 0 <= i < p.works@.len() ==> #[trigger] sends_ok(p.works@[i], p.log_num_threads)
    &&& (p.stalled_work matches Some(w) ==> sends_ok(w, p.log_num_threads))
    &&& p.cache.wf()
    &&& p.log_num_threads < 48
}

/// A message that work `w` sends goes to one of the `2^log` processors.
pub open spec fn sends_ok(w: NMPProcessorWork, log: u64) -> bool {
    w is SendMessage ==> w->SendMessage_0.recipient < (1u64 << log)
}

/// Doing work `w` took processor `pre`, with its queue then `works0`, to
/// `post`, memory from `m0` to `m1`, and returned `r`.
pub open spec fn executes<O: ObjectModel>(
    model: &O,
    m0: Map<u64, u64>,
    m1: Map<u64, u64>,
    pre: NMPProcessor,
    works0: Seq<NMPProcessorWork>,
    post: NMPProcessor,
    w: NMPProcessorWork,
    r: Option<NMPMessage>,
) -> bool {
    &&& post.stall_ticks == 0
    &&& post.stalled_work is None
    &&& post.busy_ticks == if w is Idle { pre.busy_ticks as int } else { pre.busy_ticks + 1 }
    &&& match w {
        NMPProcessorWork::Mark(o) => if is_marked_in(m0, o, 1) {
            &&& m1 == m0
            &&& post.cache == pre.cache
            &&& post.marked_objects == pre.marked_objects
            &&& post.works@ == works0
            &&& post.inbox@ == pre.inbox@
            &&& r is None
        } else {
            &&& m1 == m0.insert(o, with_byte(word_at(m0, o), 1, MARK_BYTE_OFFSET as int))
            &&& set_line_access(pre.cache, post.cache, o, true, cached_latency(pre.cache, o))
            &&& post.marked_objects == pre.marked_objects + 1
            &&& post.works@ == works0 + slot_loads(model, m0, o)
            &&& post.inbox@ == pre.inbox@
            &&& r is None
        },
        NMPProcessorWork::Load(e) => {
            &&& m1 == m0
            &&& set_line_access(pre.cache, post.cache, e, false, cached_latency(pre.cache, e))
            &&& post.marked_objects == pre.marked_objects
            &&& post.works@ == works0 + load_followup(word_at(m0, e), pre.id, pre.log_num_threads)
            &&& post.inbox@ == pre.inbox@
            &&& r is None
        },
        NMPProcessorWork::Idle => {
            &&& m1 == m0
            &&& post.cache == pre.cache
            &&& post.marked_objects == pre.marked_objects
            &&& post.works@ == if pre.inbox@.len() > 0 { works0.push(NMPProcessorWork::ReadInbox) } else { works0 }
            &&& post.inbox@ == pre.inbox@
            &&& r is None
        },
        NMPProcessorWork::SendMessage(msg) => {
            &&& m1 == m0
            &&& post.cache == pre.cache
            &&& post.marked_objects == pre.marked_objects
            &&& post.works@ == works0
            &&& post.inbox@ == pre.inbox@
            &&& r == Some(msg)
        },
        NMPProcessorWork::ReadInbox => {
            &&& m1 == m0
            &&& post.cache == pre.cache
            &&& post.marked_objects == pre.marked_objects
            &&& r is None
            &&& if pre.inbox@.len() > 0 {
                &&& post.inbox@ == pre.inbox@.drop_last()
                &&& post.works@ == works0.push(NMPProcessorWork::Mark(pre.inbox@.last().object))
            } else {
                &&& post.inbox@ == pre.inbox@
                &&& post.works@ == works0
            }
        },
    }
}

/// Counters of `p` with room for one more tick of work.
pub open spec fn counters_room(p: NMPProcessor) -> bool {
    &&& p.ticks < usize::MAX
    &&& p.busy_ticks < usize::MAX
    &&& p.marked_objects < usize::MAX
    &&& cache_stats_room(p.cache.counters())
}

/// Changing only mark bytes of objects keeps the heap traceable and every
/// work about objects of the heap.
proof fn lemma_marks_keep<O: ObjectModel>(model: &O, m0: Map<u64, u64>, m1: Map<u64, u64>, p: NMPProcessor)
    requires
        nmp_heap(model, m0),
        mark_bytes_only(m0, m1, model.objects_spec().to_set()),
        processor_ok(model, m0, p),
    ensures
        nmp_heap(model, m1),
        processor_ok(model, m1, p),
        forall|o: u64, s: u64|
            #![trigger is_slot_of(model, m1, o, s)]
            #![trigger is_slot_of(model, m0, o, s)]
            model.objects_spec().to_set().contains(o) ==> (is_slot_of(model, m1, o, s) <==> is_slot_of(model, m0, o, s)),
{
    let objs = model.objects_spec().to_set();
    assert forall|o: u64| #[trigger] objs.contains(o) implies model.can_scan(m1, o) && model.scan_chunks(m1, o)
        == model.scan_chunks(m0, o) && forall|s: u64| #[trigger] is_slot_of(model, m0, o, s) ==> word_at(m1, s)
        == word_at(m0, s) by {
        assert(model.can_scan(m1, o));
    }
    assert forall|o: u64, s: u64|
        #![trigger is_slot_of(model, m1, o, s)]
        #![trigger is_slot_of(model, m0, o, s)]
        objs.contains(o) implies (is_slot_of(model, m1, o, s) <==> is_slot_of(model, m0, o, s)) by {
        assert(model.can_scan(m1, o));
    }
    assert forall|m2: Map<u64, u64>, o: u64|
        mark_bytes_only(m1, m2, objs) && #[trigger] objs.contains(o) implies #[trigger] model.can_scan(m2, o)
            && model.scan_chunks(m2, o) == model.scan_chunks(m1, o) && forall|s: u64|
            #[trigger] is_slot_of(model, m1, o, s) ==> word_at(m2, s) == word_at(m1, s) by {
        crate::mark::lemma_mark_bytes_only_trans(m0, m1, m2, objs);
        assert(model.can_scan(m2, o));
        assert(model.can_scan(m1, o));
        assert forall|s: u64| #[trigger] is_slot_of(model, m1, o, s) implies word_at(m2, s) == word_at(m1, s) by {
            assert(is_slot_of(model, m0, o, s));
        }
    }
    assert forall|o: u64, s: u64|
        objs.contains(o) && #[trigger] is_slot_of(model, m1, o, s) && word_at(m1, s) != 0 implies objs.contains(
        word_at(m1, s),
    ) by {
        assert(model.can_scan(m1, o));
        assert(is_slot_of(model, m0, o, s));
    }
    assert forall|i: int| 0 <= i < p.works@.len() implies #[trigger] work_ok(model, m1, p.works@[i]) by {
        assert(work_ok(model, m0, p.works@[i]));
        if let NMPProcessorWork::Load(e) = p.works@[i] {
            let o = choose|o: u64| objs.contains(o) && #[trigger] is_slot_of(model, m0, o, e);
            assert(model.can_scan(m1, o));
            assert(is_slot_of(model, m1, o, e));
        }
    }
    if let Some(w) = p.stalled_work {
        if let NMPProcessorWork::Load(e) = w {
            let o = choose|o: u64| objs.contains(o) && #[trigger] is_slot_of(model, m0, o, e);
            assert(model.can_scan(m1, o));
            assert(is_slot_of(model, m1, o, e));
        }
    }
}

/// Queues a load of each slot of `slots`, in order.
fn push_loads(works: &mut VecDeque<NMPProcessorWork>, slots: &Vec<u64>)
    ensures
        final(works)@ == old(works)@ + slots@.map_values(|e: u64| NMPProcessorWork::Load(e)),
{
    let mut k: usize = 0;
    while k < slots.len()
        invariant
            k <= slots@.len(),
            works@ == old(works)@ + slots@.subrange(0, k as int).map_values(|e: u64| NMPProcessorWork::Load(e)),
        decreases slots@.len() - k,
    {
        works.push_back(NMPProcessorWork::Load(slots[k]));
        proof {
            assert(slots@.subrange(0, k + 1) == slots@.subrange(0, k as int).push(slots@[k as int]));
        }
        k += 1;
    }
    assert(slots@.subrange(0, slots@.len() as int) == slots@);
}

impl NMPProcessor {
    /// Processor `id` of `2^log_num_threads`, with nothing to do and an
    /// empty 32 KB cache of 64 sets of 8 lines.
    pub fn new(id: usize, log_num_threads: u64) -> (r: Self)
        requires
            log_num_threads < 48,
        ensures
            r.id == id,
            r.log_num_threads == log_num_threads,
            r.ticks == 0,
            r.busy_ticks == 0,
            r.marked_objects == 0,
            r.inbox@.len() == 0,
            r.works@.len() == 0,
            r.stalled_work is None,
            r.stall_ticks == 0,
            r.cache.wf(),
            r.cache.set_list().len() == 64,
            r.cache.counters() == (CacheStats { read_hits: 0, read_misses: 0, write_hits: 0, write_misses: 0 }),
    {
        NMPProcessor {
            id,
            log_num_threads,
            ticks: 0,
            busy_ticks: 0,
            marked_objects: 0,
            inbox: Vec::new(),
            works: VecDeque::new(),
            stalled_work: None,
            stall_ticks: 0,
            cache: SetAssociativeCache::new(64, 8),
        }
    }

    /// Whether the processor has nothing left: no work, stalled work or message.
    pub fn locally_done(&self) -> (r: bool)
        ensures
            r == (self.works@.len() == 0 && self.stalled_work is None && self.inbox@.len() == 0),
    {
        self.works.len() == 0 && self.stalled_work.is_none() && self.inbox.len() == 0
    }

    /// The ticks work `w` takes now.
    pub fn get_latency(&self, w: &NMPProcessorWork) -> (r: usize)
        requires
            self.cache.wf(),
        ensures
            r == work_latency(self.cache, *w),
    {
        match w {
            NMPProcessorWork::Mark(o) => self.cache.write_latency(*o),
            NMPProcessorWork::Load(e) => self.cache.read_latency(*e),
            NMPProcessorWork::Idle => 1,
            NMPProcessorWork::ReadInbox => 2,
            NMPProcessorWork::SendMessage(_) => 10,
        }
    }

    /// Does work `w`.
    #[verifier::spinoff_prover]
    #[verifier::rlimit(60)]
    fn execute<O: ObjectModel>(&mut self, w: NMPProcessorWork, model: &O, mem: &mut TargetMemory) -> (r: Option<NMPMessage>)
        requires
            nmp_heap(model, old(mem)@),
            processor_ok(model, old(mem)@, *old(self)),
            work_ok(model, old(mem)@, w),
            sends_ok(w, old(self).log_num_threads),
            old(self).busy_ticks < usize::MAX,
            old(self).marked_objects < usize::MAX,
            cache_stats_room(old(self).cache.counters()),
        ensures
            executes(model, old(mem)@, final(mem)@, *old(self), old(self).works@, *final(self), w, r),
            final(self).id == old(self).id,
            final(self).log_num_threads == old(self).log_num_threads,
            final(self).ticks == old(self).ticks,
            nmp_heap(model, final(mem)@),
            processor_ok(model, final(mem)@, *final(self)),
            mark_bytes_only(old(mem)@, final(mem)@, model.objects_spec().to_set()),
            r matches Some(msg) ==> model.objects_spec().to_set().contains(msg.object) && msg.recipient < (1u64
                << old(self).log_num_threads),
    {
        let ghost m0 = mem@;
        let ghost objs = model.objects_spec().to_set();
        self.stalled_work = None;
        self.stall_ticks = 0;
        let is_idle = match w {
            NMPProcessorWork::Idle => true,
            _ => false,
        };
        if !is_idle {
            self.busy_ticks += 1;
        }
        proof {
            assert(processor_ok(model, m0, *self));
        }
        let ret = match w {
            NMPProcessorWork::Mark(o) => {
                if trace_object(mem, o, 1) {
                    proof {
                        crate::trace::lemma_mark_byte_of_marked(word_at(m0, o), 1);
                        assert forall|a: u64| #[trigger] word_at(mem@, a) != word_at(m0, a) implies objs.contains(a)
                            && word_at(mem@, a) == with_byte(
                            word_at(m0, a),
                            crate::header::byte_of(word_at(mem@, a), MARK_BYTE_OFFSET as int),
                            MARK_BYTE_OFFSET as int,
                        ) by {
                            if a != o {
                                assert(word_at(mem@, a) == word_at(m0, a));
                            }
                        }
                        lemma_marks_keep(model, m0, mem@, *self);
                        assert(model.can_scan(mem@, o));
                    }
                    let ghost p1 = *self;
                    let _ = self.cache.write(o);
                    self.marked_objects += 1;
                    let chunks = model.scan_object(mem, o);
                    let mut slots: Vec<u64> = Vec::new();
                    push_slots(&mut slots, &chunks);
                    proof {
                        assert(slots@ == expand_chunks(model.scan_chunks(m0, o)));
                    }
                    let ghost works0 = self.works@;
                    push_loads(&mut self.works, &slots);
                    proof {
                        assert(self.works@ =~= works0 + slot_loads(model, m0, o));
                        assert(works0 == p1.works@);
                        assert forall|i: int| 0 <= i < self.works@.len() implies #[trigger] work_ok(
                            model,
                            mem@,
                            self.works@[i],
                        ) by {
                            if i < works0.len() {
                                assert(self.works@[i] == p1.works@[i]);
                                assert(work_ok(model, mem@, p1.works@[i]));
                            } else {
                                let e = slots@[i - works0.len()];
                                assert(self.works@[i] == NMPProcessorWork::Load(e));
                                lemma_expand_contains(model.scan_chunks(m0, o), e);
                                assert(expand_chunks(model.scan_chunks(m0, o)).contains(e));
                                assert(is_slot_of(model, m0, o, e));
                                assert(is_slot_of(model, mem@, o, e));
                                assert(objs.contains(o));
                                assert(work_ok(model, mem@, NMPProcessorWork::Load(e)));
                            }
                        }
                    }
                    None
                } else {
                    None
                }
            },
            NMPProcessorWork::Load(e) => {
                let child = mem.load(e);
                let _ = self.cache.read(e);
                if child != 0 {
                    proof {
                        let o = choose|o: u64| objs.contains(o) && #[trigger] is_slot_of(model, m0, o, e);
                        assert(objs.contains(word_at(m0, e)));
                    }
                    let owner = get_owner_thread(child, self.log_num_threads);
                    if owner == self.id as u64 {
                        self.works.push_back(NMPProcessorWork::Mark(child));
                    } else {
                        self.works.push_back(
                            NMPProcessorWork::SendMessage(NMPMessage { recipient: owner, object: child }),
                        );
                    }
                }
                proof {
                    assert(self.works@ =~= old(self).works@ + load_followup(word_at(m0, e), self.id, self.log_num_threads));
                }
                None
            },
            NMPProcessorWork::Idle => {
                if self.inbox.len() > 0 {
                    self.works.push_back(NMPProcessorWork::ReadInbox);
                }
                None
            },
            NMPProcessorWork::SendMessage(msg) => Some(msg),
            NMPProcessorWork::ReadInbox => {
                if self.inbox.len() > 0 {
                    let msg = self.inbox.pop().unwrap();
                    self.works.push_back(NMPProcessorWork::Mark(msg.object));
                }
                None
            },
        };
        ret
    }

    /// One tick: wait out the current work's latency, or finish the
    /// stalled work, or take the next work (stalling first if it takes
    /// more than a tick), or idle when there is none.
    pub fn tick<O: ObjectModel>(&mut self, model: &O, mem: &mut TargetMemory) -> (r: Option<NMPMessage>)
        requires
            nmp_heap(model, old(mem)@),
            processor_ok(model, old(mem)@, *old(self)),
            counters_room(*old(self)),
        ensures
            final(self).id == old(self).id,
            final(self).log_num_threads == old(self).log_num_threads,
            final(self).ticks == old(self).ticks + 1,
            nmp_heap(model, final(mem)@),
            processor_ok(model, final(mem)@, *final(self)),
            mark_bytes_only(old(mem)@, final(mem)@, model.objects_spec().to_set()),
            r matches Some(msg) ==> model.objects_spec().to_set().contains(msg.object) && msg.recipient < (1u64
                << old(self).log_num_threads),
            old(self).stall_ticks > 0 ==> {
                &&& final(self).stall_ticks == old(self).stall_ticks - 1
                &&& final(self).stalled_work == old(self).stalled_work
                &&& final(self).busy_ticks == old(self).busy_ticks + 1
                &&& final(self).marked_objects == old(self).marked_objects
                &&& final(self).works@ == old(self).works@
                &&& final(self).inbox@ == old(self).inbox@
                &&& final(self).cache == old(self).cache
                &&& final(mem)@ == old(mem)@
                &&& r is None
            },
            old(self).stall_ticks == 0 ==> match old(self).stalled_work {
                Some(w) => executes(model, old(mem)@, final(mem)@, *old(self), old(self).works@, *final(self), w, r),
                None => if old(self).works@.len() == 0 {
                    executes(
                        model,
                        old(mem)@,
                        final(mem)@,
                        *old(self),
                        old(self).works@,
                        *final(self),
                        NMPProcessorWork::Idle,
                        r,
                    )
                } else if work_latency(old(self).cache, old(self).works@[0]) > 1 {
                    &&& final(self).stall_ticks == work_latency(old(self).cache, old(self).works@[0]) - 1
                    &&& final(self).stalled_work == Some(old(self).works@[0])
                    &&& final(self).busy_ticks == old(self).busy_ticks
                    &&& final(self).marked_objects == old(self).marked_objects
                    &&& final(self).works@ == old(self).works@.drop_first()
                    &&& final(self).inbox@ == old(self).inbox@
                    &&& final(self).cache == old(self).cache
                    &&& final(mem)@ == old(mem)@
                    &&& r is None
                } else {
                    executes(
                        model,
                        old(mem)@,
                        final(mem)@,
                        *old(self),
                        old(self).works@.drop_first(),
                        *final(self),
                        old(self).works@[0],
                        r,
                    )
                },
            },
    {
        self.ticks += 1;
        if self.stall_ticks > 0 {
            self.stall_ticks -= 1;
            self.busy_ticks += 1;
            return None;
        }
        let w = match self.stalled_work {
            Some(w) => w,
            None => {
                match self.works.pop_front() {
                    Some(w) => {
                        let latency = self.get_latency(&w);
                        if latency > 1 {
                            self.stall_ticks = latency - 1;
                            self.stalled_work = Some(w);
                            proof {
                                assert(work_ok(model, mem@, old(self).works@[0]));
                            assert(sends_ok(old(self).works@[0], self.log_num_threads));
                                assert forall|i: int| 0 <= i < self.works@.len() implies #[trigger] work_ok(
                                    model,
                                    mem@,
                                    self.works@[i],
                                ) by {
                                    assert(self.works@[i] == old(self).works@[i + 1]);
                                    assert(sends_ok(old(self).works@[i + 1], self.log_num_threads));
                                }
                            }
                            return None;
                        }
                        proof {
                            assert(work_ok(model, mem@, old(self).works@[0]));
                            assert(sends_ok(old(self).works@[0], self.log_num_threads));
                            assert forall|i: int| 0 <= i < self.works@.len() implies #[trigger] work_ok(
                                model,
                                mem@,
                                self.works@[i],
                            ) by {
                                assert(self.works@[i] == old(self).works@[i + 1]);
                            }
                        }
                        w
                    },
                    None => NMPProcessorWork::Idle,
                }
            },
        };
        self.execute(w, model, mem)
    }
}

/// The counters of a run: the machine's ticks, and the sums over the
/// processors of their marked objects, busy ticks and cache hits and
/// misses.
#[derive(Debug, Clone, Copy, PartialEq, Eq, Structural)]
pub struct NmpgcCounts {
    pub ticks: usize,
    pub marked_objects: usize,
    pub busy_ticks: usize,
    pub read_hits: usize,
    pub read_misses: usize,
    pub write_hits: usize,
    pub write_misses: usize,
}

/// `x`, or the largest `usize` when it is larger.
pub open spec fn saturated(x: int) -> usize {
    if x > usize::MAX { usize::MAX } else { x as usize }
}

/// The sum of `f` over the first `n` processors of `ps`.
pub open spec fn sum_over(ps: Seq<NMPProcessor>, f: spec_fn(NMPProcessor) -> int, n: nat) -> int
    decreases n,
{
    if n == 0 {
        0
    } else {
        sum_over(ps, f, (n - 1) as nat) + f(ps[n - 1])
    }
}

pub open spec fn marked_of(p: NMPProcessor) -> int {
    p.marked_objects as int
}

pub open spec fn busy_of(p: NMPProcessor) -> int {
    p.busy_ticks as int
}

pub open spec fn read_hits_of(p: NMPProcessor) -> int {
    p.cache.counters().read_hits as int
}

pub open spec fn read_misses_of(p: NMPProcessor) -> int {
    p.cache.counters().read_misses as int
}

pub open spec fn write_hits_of(p: NMPProcessor) -> int {
    p.cache.counters().write_hits as int
}

pub open spec fn write_misses_of(p: NMPProcessor) -> int {
    p.cache.counters().write_misses as int
}

/// One more processor adds its value to the sum; a saturated sum grows
/// the same way when adding with saturation.
proof fn lemma_sum_step(ps: Seq<NMPProcessor>, f: spec_fn(NMPProcessor) -> int, i: nat)
    requires
        i < ps.len(),
        forall|p: NMPProcessor| #[trigger] f(p) >= 0,
    ensures
        sum_over(ps, f, i + 1) == sum_over(ps, f, i) + f(ps[i as int]),
        sum_over(ps, f, i) >= 0,
{
    lemma_sum_nonneg(ps, f, i);
}

proof fn lemma_sum_nonneg(ps: Seq<NMPProcessor>, f: spec_fn(NMPProcessor) -> int, i: nat)
    requires
        i <= ps.len(),
        forall|p: NMPProcessor| #[trigger] f(p) >= 0,
    ensures
        sum_over(ps, f, i) >= 0,
    decreases i,
{
    if i > 0 {
        lemma_sum_nonneg(ps, f, (i - 1) as nat);
    }
}

/// Processor `p` has nothing left: no work, stalled work or message.
pub open spec fn proc_done(p: NMPProcessor) -> bool {
    p.works@.len() == 0 && p.stalled_work is None && p.inbox@.len() == 0
}

/// The near-memory GC machine: `2^log_num_threads` processors ticking in
/// step, messages handed to their recipients' inboxes at the end of the
/// tick that sent them.
pub struct NMPGC {
    pub processors: Vec<NMPProcessor>,
    pub ticks: usize,
    pub log_num_threads: u64,
}

/// The machine runs on the heap of `model` in memory `m`: processor `i`
/// has id `i`, and every processor is about objects of the heap.
pub open spec fn machine_ok<O: ObjectModel>(model: &O, m: Map<u64, u64>, g: NMPGC) -> bool {
    &&& g.log_num_threads <= 8
    &&& g.processors@.len() == (1u64 << g.log_num_threads)
    &&& forall|i: int|
        0 <= i < g.processors@.len() ==> #[trigger] processor_ok(model, m, g.processors@[i]) && g.processors@[i].id == i
            && g.processors@[i].log_num_threads == g.log_num_threads
}

/// Every processor has room for one more tick in its counters.
pub open spec fn machine_room(g: NMPGC) -> bool {
    &&& g.ticks < usize::MAX
    &&& forall|i: int| 0 <= i < g.processors@.len() ==> #[trigger] counters_room(g.processors@[i])
}

/// The processor of each root, in root order: marking the root.
pub open spec fn root_works(roots: Seq<u64>, log: u64, i: usize) -> Seq<NMPProcessorWork> {
    roots.filter(|o: u64| nmp_owner(o, log) == i).map_values(|o: u64| NMPProcessorWork::Mark(o))
}

impl NMPGC {
    /// The machine at the start of a trace: every root queued for marking
    /// on the processor that owns it.
    pub fn new<O: ObjectModel>(model: &O, mem: &TargetMemory, log_num_threads: u64) -> (r: Self)
        requires
            log_num_threads <= 8,
            forall|k: int|
                0 <= k < model.roots_spec().len() ==> model.objects_spec().to_set().contains(
                    #[trigger] model.roots_spec()[k],
                ),
        ensures
            machine_ok(model, mem@, r),
            r.ticks == 0,
            r.log_num_threads == log_num_threads,
            forall|i: int|
                0 <= i < r.processors@.len() ==> {
                    let p = #[trigger] r.processors@[i];
                    &&& p.works@ == root_works(model.roots_spec(), log_num_threads, i as usize)
                    &&& p.ticks == 0 && p.busy_ticks == 0 && p.marked_objects == 0
                    &&& p.inbox@.len() == 0 && p.stalled_work is None && p.stall_ticks == 0
                    &&& p.cache.counters() == (CacheStats {
                        read_hits: 0,
                        read_misses: 0,
                        write_hits: 0,
                        write_misses: 0,
                    })
                },
    {
        assert((1u64 << log_num_threads) <= 256) by (bit_vector)
            requires
                log_num_threads <= 8,
        ;
        let n = (1u64 << log_num_threads) as usize;
        let roots = model.roots();
        let mut processors: Vec<NMPProcessor> = Vec::new();
        let mut i: usize = 0;
        while i < n
            invariant
                i <= n,
                n == (1u64 << log_num_threads),
                log_num_threads <= 8,
                roots@ == model.roots_spec(),
                processors@.len() == i,
                forall|k: int|
                    0 <= k < model.roots_spec().len() ==> model.objects_spec().to_set().contains(
                        #[trigger] model.roots_spec()[k],
                    ),
                forall|j: int|
                    0 <= j < i ==> {
                        let p = #[trigger] processors@[j];
                        &&& processor_ok(model, mem@, p)
                        &&& p.id == j && p.log_num_threads == log_num_threads
                        &&& p.works@ == root_works(model.roots_spec(), log_num_threads, j as usize)
                        &&& p.ticks == 0 && p.busy_ticks == 0 && p.marked_objects == 0
                        &&& p.inbox@.len() == 0 && p.stalled_work is None && p.stall_ticks == 0
                        &&& p.cache.counters() == (CacheStats {
                            read_hits: 0,
                            read_misses: 0,
                            write_hits: 0,
                            write_misses: 0,
                        })
                    },
            decreases n - i,
        {
            let mut p = NMPProcessor::new(i, log_num_threads);
            let mut k: usize = 0;
            while k < roots.len()
                invariant
                    k <= roots@.len(),
                    roots@ == model.roots_spec(),
                    log_num_threads <= 8,
                    p.id == i,
                    p.log_num_threads == log_num_threads,
                    p.ticks == 0 && p.busy_ticks == 0 && p.marked_objects == 0,
                    p.inbox@.len() == 0 && p.stalled_work is None && p.stall_ticks == 0,
                    p.cache.wf(),
                    p.cache.counters() == (CacheStats { read_hits: 0, read_misses: 0, write_hits: 0, write_misses: 0 }),
                    p.works@ == root_works(roots@.subrange(0, k as int), log_num_threads, i),
                    forall|j: int|
                        0 <= j < model.roots_spec().len() ==> model.objects_spec().to_set().contains(
                            #[trigger] model.roots_spec()[j],
                        ),
                    forall|j: int| 0 <= j < p.works@.len() ==> #[trigger] work_ok(model, mem@, p.works@[j]) && sends_ok(
                        p.works@[j],
                        log_num_threads,
                    ),
                decreases roots@.len() - k,
            {
                let o = roots[k];
                let owner = get_owner_thread(o, log_num_threads);
                proof {
                    let s = roots@.subrange(0, k as int);
                    assert(roots@.subrange(0, k + 1) == s.push(o));
                    reveal(Seq::filter);
                    assert(s.push(o).drop_last() =~= s);
                }
                if owner == i as u64 {
                    p.works.push_back(NMPProcessorWork::Mark(o));
                }
                proof {
                    let s = roots@.subrange(0, k as int);
                    assert(p.works@ =~= root_works(roots@.subrange(0, k + 1), log_num_threads, i));
                    assert(model.objects_spec().to_set().contains(model.roots_spec()[k as int]));
                }
                k += 1;
            }
            proof {
                assert(roots@.subrange(0, roots@.len() as int) == roots@);
            }
            processors.push(p);
            i += 1;
        }
        NMPGC { processors, ticks: 0, log_num_threads }
    }

    /// Whether every processor is done: no work, stalled work or message.
    pub fn all_done(&self) -> (r: bool)
        ensures
            r == forall|i: int| 0 <= i < self.processors@.len() ==> #[trigger] proc_done(self.processors@[i]),
    {
        let mut i: usize = 0;
        while i < self.processors.len()
            invariant
                i <= self.processors@.len(),
                forall|j: int| 0 <= j < i ==> #[trigger] proc_done(self.processors@[j]),
            decreases self.processors@.len() - i,
        {
            if !self.processors[i].locally_done() {
                proof {
                    assert(!proc_done(self.processors@[i as int]));
                }
                return false;
            }
            i += 1;
        }
        true
    }

    /// One tick of the machine: every processor ticks, in order, then
    /// each message sent in this tick is added to the inbox of its
    /// recipient.  Returns whether every processor is then done.
    pub fn tick<O: ObjectModel>(&mut self, model: &O, mem: &mut TargetMemory) -> (r: bool)
        requires
            machine_ok(model, old(mem)@, *old(self)),
            machine_room(*old(self)),
            nmp_heap(model, old(mem)@),
        ensures
            machine_ok(model, final(mem)@, *final(self)),
            nmp_heap(model, final(mem)@),
            mark_bytes_only(old(mem)@, final(mem)@, model.objects_spec().to_set()),
            final(self).ticks == old(self).ticks + 1,
            final(self).log_num_threads == old(self).log_num_threads,
            forall|i: int|
                0 <= i < final(self).processors@.len() ==> #[trigger] final(self).processors@[i].ticks
                    == old(self).processors@[i].ticks + 1,
            r == forall|i: int| 0 <= i < final(self).processors@.len() ==> #[trigger] proc_done(final(self).processors@[i]),
    {
        let ghost m0 = mem@;
        let ghost ps0 = self.processors@;
        let ghost objs = model.objects_spec().to_set();
        self.ticks += 1;
        let n = self.processors.len();
        let mut messages: Vec<NMPMessage> = Vec::new();
        let mut i: usize = 0;
        while i < n
            invariant
                i <= n,
                n == self.processors@.len(),
                n == ps0.len(),
                objs == model.objects_spec().to_set(),
                self.log_num_threads == old(self).log_num_threads,
                self.ticks == old(self).ticks + 1,
                self.log_num_threads <= 8,
                n == (1u64 << self.log_num_threads),
                nmp_heap(model, mem@),
                mark_bytes_only(m0, mem@, objs),
                forall|j: int|
                    0 <= j < n ==> #[trigger] processor_ok(model, mem@, self.processors@[j]) && self.processors@[j].id == j
                        && self.processors@[j].log_num_threads == self.log_num_threads,
                forall|j: int| i <= j < n ==> #[trigger] self.processors@[j] == ps0[j],
                forall|j: int| i <= j < n ==> #[trigger] counters_room(ps0[j]),
                forall|j: int| 0 <= j < i ==> #[trigger] self.processors@[j].ticks == ps0[j].ticks + 1,
                forall|k: int|
                    0 <= k < messages@.len() ==> objs.contains(#[trigger] messages@[k].object) && messages@[k].recipient
                        < n,
            decreases n - i,
        {
            let ghost mb = mem@;
            let ghost before = self.processors@;
            let mut p = self.processors.remove(i);
            proof {
                assert(p == before[i as int]);
                assert(processor_ok(model, mb, before[i as int]));
            }
            let msg = p.tick(model, mem);
            proof {
                crate::mark::lemma_mark_bytes_only_trans(m0, mb, mem@, objs);
                assert forall|j: int| 0 <= j < n && j != i implies #[trigger] processor_ok(model, mem@, before[j]) by {
                    assert(processor_ok(model, mb, before[j]));
                    lemma_marks_keep(model, mb, mem@, before[j]);
                }
            }
            self.processors.insert(i, p);
            proof {
                assert(self.processors@ =~= before.update(i as int, p));
                assert forall|j: int| 0 <= j < n implies #[trigger] processor_ok(model, mem@, self.processors@[j])
                    && self.processors@[j].id == j && self.processors@[j].log_num_threads == self.log_num_threads by {
                    if j != i {
                        assert(self.processors@[j] == before[j]);
                        assert(processor_ok(model, mb, before[j]));
                    }
                }
            }
            match msg {
                Some(m) => {
                    messages.push(m);
                },
                None => {},
            }
            i += 1;
        }
        let mut k: usize = 0;
        while k < messages.len()
            invariant
                k <= messages@.len(),
                n == self.processors@.len(),
                n == ps0.len(),
                objs == model.objects_spec().to_set(),
                self.log_num_threads == old(self).log_num_threads,
                self.ticks == old(self).ticks + 1,
                self.log_num_threads <= 8,
                n == (1u64 << self.log_num_threads),
                nmp_heap(model, mem@),
                mark_bytes_only(m0, mem@, objs),
                forall|j: int|
                    0 <= j < n ==> #[trigger] processor_ok(model, mem@, self.processors@[j]) && self.processors@[j].id == j
                        && self.processors@[j].log_num_threads == self.log_num_threads,
                forall|j: int| 0 <= j < n ==> #[trigger] self.processors@[j].ticks == ps0[j].ticks + 1,
                forall|q: int|
                    0 <= q < messages@.len() ==> objs.contains(#[trigger] messages@[q].object) && messages@[q].recipient
                        < n,
            decreases messages@.len() - k,
        {
            let m = messages[k];
            proof {
                assert(objs.contains(messages@[k as int].object));
            }
            let ri = m.recipient as usize;
            let ghost before = self.processors@;
            let mut p = self.processors.remove(ri);
            proof {
                assert(p == before[ri as int]);
                assert(processor_ok(model, mem@, p));
            }
            p.inbox.push(m);
            proof {
                assert forall|q: int| 0 <= q < p.inbox@.len() implies objs.contains(#[trigger] p.inbox@[q].object) by {
                    if q < before[ri as int].inbox@.len() {
                        assert(p.inbox@[q] == before[ri as int].inbox@[q]);
                    }
                }
            }
            self.processors.insert(ri, p);
            proof {
                assert(self.processors@ =~= before.update(ri as int, p));
            }
            k += 1;
        }
        self.all_done()
    }

    /// The counters of the run so far: the machine's ticks, and the sums
    /// over the processors of their marked objects, busy ticks and cache
    /// hits and misses, each stopping at the largest `usize`.
    pub fn stats_counts(&self) -> (r: NmpgcCounts)
        ensures
            r.ticks == self.ticks,
            r.marked_objects == saturated(sum_over(self.processors@, |p: NMPProcessor| marked_of(p), self.processors@.len())),
            r.busy_ticks == saturated(sum_over(self.processors@, |p: NMPProcessor| busy_of(p), self.processors@.len())),
            r.read_hits == saturated(sum_over(self.processors@, |p: NMPProcessor| read_hits_of(p), self.processors@.len())),
            r.read_misses == saturated(
                sum_over(self.processors@, |p: NMPProcessor| read_misses_of(p), self.processors@.len()),
            ),
            r.write_hits == saturated(
                sum_over(self.processors@, |p: NMPProcessor| write_hits_of(p), self.processors@.len()),
            ),
            r.write_misses == saturated(
                sum_over(self.processors@, |p: NMPProcessor| write_misses_of(p), self.processors@.len()),
            ),
    {
        let ps = &self.processors;
        let mut c = NmpgcCounts {
            ticks: self.ticks,
            marked_objects: 0,
            busy_ticks: 0,
            read_hits: 0,
            read_misses: 0,
            write_hits: 0,
            write_misses: 0,
        };
        let mut i: usize = 0;
        while i < ps.len()
            invariant
                i <= ps@.len(),
                ps@ == self.processors@,
                c.ticks == self.ticks,
                c.marked_objects == saturated(sum_over(ps@, |p: NMPProcessor| marked_of(p), i as nat)),
                c.busy_ticks == saturated(sum_over(ps@, |p: NMPProcessor| busy_of(p), i as nat)),
                c.read_hits == saturated(sum_over(ps@, |p: NMPProcessor| read_hits_of(p), i as nat)),
                c.read_misses == saturated(sum_over(ps@, |p: NMPProcessor| read_misses_of(p), i as nat)),
                c.write_hits == saturated(sum_over(ps@, |p: NMPProcessor| write_hits_of(p), i as nat)),
                c.write_misses == saturated(sum_over(ps@, |p: NMPProcessor| write_misses_of(p), i as nat)),
            decreases ps@.len() - i,
        {
            let p = &ps[i];
            let st = p.cache.get_stats();
            proof {
                lemma_sum_step(ps@, |p: NMPProcessor| marked_of(p), i as nat);
                lemma_sum_step(ps@, |p: NMPProcessor| busy_of(p), i as nat);
                lemma_sum_step(ps@, |p: NMPProcessor| read_hits_of(p), i as nat);
                lemma_sum_step(ps@, |p: NMPProcessor| read_misses_of(p), i as nat);
                lemma_sum_step(ps@, |p: NMPProcessor| write_hits_of(p), i as nat);
                lemma_sum_step(ps@, |p: NMPProcessor| write_misses_of(p), i as nat);
                assert(st == p.cache.counters());
            }
            c.marked_objects = c.marked_objects.saturating_add(p.marked_objects);
            c.busy_ticks = c.busy_ticks.saturating_add(p.busy_ticks);
            c.read_hits = c.read_hits.saturating_add(st.read_hits);
            c.read_misses = c.read_misses.saturating_add(st.read_misses);
            c.write_hits = c.write_hits.saturating_add(st.write_hits);
            c.write_misses = c.write_misses.saturating_add(st.write_misses);
            i += 1;
        }
        c
    }

    /// Whether every counter has room for one more tick.
    pub fn has_room(&self) -> (r: bool)
        ensures
            r == machine_room(*self),
    {
        if self.ticks == usize::MAX {
            return false;
        }
        let mut i: usize = 0;
        while i < self.processors.len()
            invariant
                i <= self.processors@.len(),
                self.ticks < usize::MAX,
                forall|j: int| 0 <= j < i ==> #[trigger] counters_room(self.processors@[j]),
            decreases self.processors@.len() - i,
        {
            let p = &self.processors[i];
            let st = p.cache.get_stats();
            if p.ticks == usize::MAX || p.busy_ticks == usize::MAX || p.marked_objects == usize::MAX
                || st.read_hits == usize::MAX || st.read_misses == usize::MAX || st.write_hits == usize::MAX
                || st.write_misses == usize::MAX {
                proof {
                    assert(!counters_room(self.processors@[i as int]));
                }
                return false;
            }
            i += 1;
        }
        true
    }

    /// Ticks until every processor is done, or until a counter has no
    /// room left; returns whether every processor is done.
    pub fn run<O: ObjectModel>(&mut self, model: &O, mem: &mut TargetMemory) -> (r: bool)
        requires
            machine_ok(model, old(mem)@, *old(self)),
            nmp_heap(model, old(mem)@),
        ensures
            machine_ok(model, final(mem)@, *final(self)),
            nmp_heap(model, final(mem)@),
            mark_bytes_only(old(mem)@, final(mem)@, model.objects_spec().to_set()),
            final(self).ticks >= old(self).ticks,
            r ==> forall|i: int| 0 <= i < final(self).processors@.len() ==> #[trigger] proc_done(final(self).processors@[i]),
            !r ==> !machine_room(*final(self)),
    {
        let ghost m0 = mem@;
        let ghost objs = model.objects_spec().to_set();
        proof {
            assert(mark_bytes_only(m0, m0, objs));
        }
        loop
            invariant
                machine_ok(model, mem@, *self),
                nmp_heap(model, mem@),
                mark_bytes_only(m0, mem@, objs),
                objs == model.objects_spec().to_set(),
                m0 == old(mem)@,
                self.ticks >= old(self).ticks,
            decreases usize::MAX - self.ticks,
        {
            if !self.has_room() {
                return false;
            }
            let ghost mb = mem@;
            let done = self.tick(model, mem);
            proof {
                crate::mark::lemma_mark_bytes_only_trans(m0, mb, mem@, objs);
            }
            if done {
                return true;
            }
        }
    }
}

} // verus!
