//! The message analysis of a distributed near-memory tracer.  Threads own
//! memory by address bits, as the distributed closure does; each step of
//! the trace is a piece of work, done by the thread that owns what it
//! reads.  The analysis runs the trace as one queue of work and counts the
//! work and the messages between threads.
use vstd::prelude::*;
use std::collections::{HashMap, VecDeque};
use vstd::arithmetic::power2::pow2;
use crate::target_memory::{word_at, TargetMemory};
use crate::header::{byte_of, lemma_get_set_other, with_byte, Header, MARK_BYTE_OFFSET};
use crate::mark::is_marked_in;
use crate::heapdump::{space_code, HeapDump, Space};
use crate::object_model::ObjectModel;
use crate::object_model::bidirectional::{
    status_known, BidirectionalObjectModel, NUMREFS_BYTE_OFFSET, STATUS_BYTE_OFFSET, STATUS_FALLBACK, STATUS_NO_REF,
    STATUS_OBJ_ARRAY, STATUS_ORDINARY,
};
use crate::trace::{chunk_slot, expand_chunks};
use crate::cli::AnalysisArgs;

verus! {

broadcast use vstd::std_specs::hash::group_hash_axioms;

/// A piece of work of the trace.
#[derive(Debug, Clone, Copy, PartialEq, Eq, Structural)]
pub enum Work {
    /// Mark an object and scan it, as far as its header allows.
    MarkObject(u64),
    /// Read the TIB pointer of an object.
    LoadTIB(u64),
    /// Read the number of references of an object from its TIB.
    ScanObject { tib_ptr: u64, o: u64 },
    /// Read the length of an object array.
    ScanRefarray(u64),
    /// Load the slots of a group that the worker owns.
    Edges { start: u64, count: u64 },
}

/// The kinds of work, by which messages are counted.
#[derive(Debug, Clone, Copy, PartialEq, Eq, Structural)]
pub enum WorkKind {
    MarkObject,
    LoadTIB,
    ScanObject,
    ScanRefarray,
    Edges,
}

/// The kind of a piece of work.
pub open spec fn kind_of(w: Work) -> WorkKind {
    match w {
        Work::MarkObject(_) => WorkKind::MarkObject,
        Work::LoadTIB(_) => WorkKind::LoadTIB,
        Work::ScanObject { .. } => WorkKind::ScanObject,
        Work::ScanRefarray(_) => WorkKind::ScanRefarray,
        Work::Edges { .. } => WorkKind::Edges,
    }
}

impl Work {
    /// The kind of this work.
    pub fn kind(&self) -> (r: WorkKind)
        ensures
            r == kind_of(*self),
    {
        match self {
            Work::MarkObject(_) => WorkKind::MarkObject,
            Work::LoadTIB(_) => WorkKind::LoadTIB,
            Work::ScanObject { .. } => WorkKind::ScanObject,
            Work::ScanRefarray(_) => WorkKind::ScanRefarray,
            Work::Edges { .. } => WorkKind::Edges,
        }
    }
}

/// Who does or creates a piece of work: a numbered thread, or the
/// environment (for the roots).
#[derive(Debug, Clone, Copy, PartialEq, Eq, Structural)]
pub enum Worker {
    Numbered(usize),
    Environment,
}

/// A piece of work with the thread that created it and the thread that
/// does it.
#[derive(Debug, Clone, Copy, PartialEq, Eq, Structural)]
pub struct TaggedWork {
    pub creator: Worker,
    pub worker: Worker,
    pub work: Work,
}

/// How many messages of each kind went to one thread.
#[derive(Debug, Clone, Copy, PartialEq, Eq, Structural)]
pub struct MessageCounts {
    pub mark_object: u64,
    pub load_tib: u64,
    pub scan_object: u64,
    pub scan_refarray: u64,
    pub edges: u64,
}

/// `x + 1`, or `x` at the top of the range.
pub open spec fn sat_inc(x: u64) -> u64 {
    if x < u64::MAX {
        (x + 1) as u64
    } else {
        x
    }
}

/// `x + y`, or the top of the range when that overflows.
pub open spec fn sat_add(x: u64, y: int) -> u64 {
    if x + y <= u64::MAX {
        (x + y) as u64
    } else {
        u64::MAX
    }
}

/// No messages.
pub open spec fn no_messages() -> MessageCounts {
    MessageCounts { mark_object: 0, load_tib: 0, scan_object: 0, scan_refarray: 0, edges: 0 }
}

/// `c` with one more message of kind `k`.
pub open spec fn count_message(c: MessageCounts, k: WorkKind) -> MessageCounts {
    match k {
        WorkKind::MarkObject => MessageCounts { mark_object: sat_inc(c.mark_object), ..c },
        WorkKind::LoadTIB => MessageCounts { load_tib: sat_inc(c.load_tib), ..c },
        WorkKind::ScanObject => MessageCounts { scan_object: sat_inc(c.scan_object), ..c },
        WorkKind::ScanRefarray => MessageCounts { scan_refarray: sat_inc(c.scan_refarray), ..c },
        WorkKind::Edges => MessageCounts { edges: sat_inc(c.edges), ..c },
    }
}

impl MessageCounts {
    /// No messages.
    pub fn new() -> (r: Self)
        ensures
            r == no_messages(),
    {
        MessageCounts { mark_object: 0, load_tib: 0, scan_object: 0, scan_refarray: 0, edges: 0 }
    }

    /// Counts one more message of kind `k`.
    pub fn add(&mut self, k: WorkKind)
        ensures
            *final(self) == count_message(*old(self), k),
    {
        match k {
            WorkKind::MarkObject => self.mark_object = self.mark_object.saturating_add(1),
            WorkKind::LoadTIB => self.load_tib = self.load_tib.saturating_add(1),
            WorkKind::ScanObject => self.scan_object = self.scan_object.saturating_add(1),
            WorkKind::ScanRefarray => self.scan_refarray = self.scan_refarray.saturating_add(1),
            WorkKind::Edges => self.edges = self.edges.saturating_add(1),
        }
    }

    /// The messages of kind `k`.
    pub fn get(&self, k: WorkKind) -> (r: u64)
        ensures
            r == match k {
                WorkKind::MarkObject => self.mark_object,
                WorkKind::LoadTIB => self.load_tib,
                WorkKind::ScanObject => self.scan_object,
                WorkKind::ScanRefarray => self.scan_refarray,
                WorkKind::Edges => self.edges,
            },
    {
        match k {
            WorkKind::MarkObject => self.mark_object,
            WorkKind::LoadTIB => self.load_tib,
            WorkKind::ScanObject => self.scan_object,
            WorkKind::ScanRefarray => self.scan_refarray,
            WorkKind::Edges => self.edges,
        }
    }
}

/// The thread that does a piece of work (work is always done by a thread).
pub open spec fn worker_id(t: TaggedWork) -> usize {
    match t.worker {
        Worker::Numbered(y) => y,
        Worker::Environment => 0,
    }
}

/// The work is done by one of `n` threads.
pub open spec fn worker_ok(t: TaggedWork, n: usize) -> bool {
    match t.worker {
        Worker::Numbered(y) => y < n,
        Worker::Environment => false,
    }
}

/// A message that stays within one thread.
pub open spec fn is_internal(t: TaggedWork) -> bool {
    t.creator == Worker::Numbered(worker_id(t))
}

/// `m` with one more unit for key `k`.
pub open spec fn bump(m: Map<usize, u64>, k: usize) -> Map<usize, u64> {
    m.insert(k, sat_inc(if m.contains_key(k) { m[k] } else { 0 }))
}

/// `m` with one more message of kind `kind` for thread `k`.
pub open spec fn bump_messages(m: Map<usize, MessageCounts>, k: usize, kind: WorkKind) -> Map<usize, MessageCounts> {
    m.insert(k, count_message(if m.contains_key(k) { m[k] } else { no_messages() }, kind))
}

/// The work counts per thread after the works `ts` are created.
pub open spec fn dist_after(m: Map<usize, u64>, ts: Seq<TaggedWork>) -> Map<usize, u64>
    decreases ts.len(),
{
    if ts.len() == 0 {
        m
    } else {
        bump(dist_after(m, ts.drop_last()), worker_id(ts.last()))
    }
}

/// The counts of messages within (`internal`) or between threads after the
/// works `ts` are created.
pub open spec fn messages_after(m: Map<usize, MessageCounts>, ts: Seq<TaggedWork>, internal: bool) -> Map<
    usize,
    MessageCounts,
>
    decreases ts.len(),
{
    if ts.len() == 0 {
        m
    } else {
        let prev = messages_after(m, ts.drop_last(), internal);
        let t = ts.last();
        if is_internal(t) == internal {
            bump_messages(prev, worker_id(t), kind_of(t.work))
        } else {
            prev
        }
    }
}

pub proof fn lemma_dist_after_concat(m: Map<usize, u64>, a: Seq<TaggedWork>, b: Seq<TaggedWork>)
    ensures
        dist_after(m, a + b) == dist_after(dist_after(m, a), b),
    decreases b.len(),
{
    if b.len() == 0 {
        assert(a + b =~= a);
    } else {
        lemma_dist_after_concat(m, a, b.drop_last());
        assert((a + b).drop_last() =~= a + b.drop_last());
    }
}

pub proof fn lemma_messages_after_concat(
    m: Map<usize, MessageCounts>,
    a: Seq<TaggedWork>,
    b: Seq<TaggedWork>,
    internal: bool,
)
    ensures
        messages_after(m, a + b, internal) == messages_after(messages_after(m, a, internal), b, internal),
    decreases b.len(),
{
    if b.len() == 0 {
        assert(a + b =~= a);
    } else {
        lemma_messages_after_concat(m, a, b.drop_last(), internal);
        assert((a + b).drop_last() =~= a + b.drop_last());
    }
}

/// What the analysis counts of the slots it loads.
#[derive(Debug, Clone, Copy, PartialEq, Eq, Structural)]
pub struct SlotCounts {
    pub slots: u64,
    pub empty_root_slots: u64,
    pub non_empty_root_slots: u64,
    pub visible_empty_slots: u64,
    pub visible_non_empty_slots_visible_child: u64,
    pub visible_non_empty_slots_invisible_child: u64,
    pub invisible_empty_slots: u64,
    pub invisible_non_empty_slots_visible_child: u64,
    pub invisible_non_empty_slots_invisible_child: u64,
}

/// What the analysis counts of the objects it marks.
#[derive(Debug, Clone, Copy, PartialEq, Eq, Structural)]
pub struct ObjectCounts {
    pub marked_objects: u64,
    pub los_objects: u64,
    pub los_objarrays: u64,
    pub total_object_size: u64,
    pub los_object_size: u64,
    pub los_objarray_size: u64,
    pub objarray_slots: u64,
    pub objarray_empty_slots: u64,
}

/// Statistics about communication in a distributed near-memory tracer.
///
/// A slot is visible to the thread that scans its object when that thread
/// owns the slot and can load it; otherwise the load is delegated by an
/// `Edges` message.  A child is visible to the thread that loads the slot
/// when that thread owns the child; otherwise marking it takes a
/// `MarkObject` message.
pub struct AnalysisStats {
    pub num_threads: usize,
    /// All the work created.
    pub total_work: u64,
    /// The work done by each thread.
    pub work_dist: HashMap<usize, u64>,
    /// Messages between threads, by receiver and kind.
    pub external_messages: HashMap<usize, MessageCounts>,
    /// Messages within a thread, by thread and kind.
    pub internal_messages: HashMap<usize, MessageCounts>,
    pub slot_counts: SlotCounts,
    pub object_counts: ObjectCounts,
}

/// No slots counted.
pub open spec fn no_slots() -> SlotCounts {
    SlotCounts {
        slots: 0,
        empty_root_slots: 0,
        non_empty_root_slots: 0,
        visible_empty_slots: 0,
        visible_non_empty_slots_visible_child: 0,
        visible_non_empty_slots_invisible_child: 0,
        invisible_empty_slots: 0,
        invisible_non_empty_slots_visible_child: 0,
        invisible_non_empty_slots_invisible_child: 0,
    }
}

/// No objects counted.
pub open spec fn no_objects() -> ObjectCounts {
    ObjectCounts {
        marked_objects: 0,
        los_objects: 0,
        los_objarrays: 0,
        total_object_size: 0,
        los_object_size: 0,
        los_objarray_size: 0,
        objarray_slots: 0,
        objarray_empty_slots: 0,
    }
}

impl AnalysisStats {
    /// Empty statistics for `num_threads` threads.
    pub fn new(num_threads: usize) -> (r: Self)
        ensures
            r.num_threads == num_threads,
            r.total_work == 0,
            r.work_dist@ == Map::<usize, u64>::empty(),
            r.external_messages@ == Map::<usize, MessageCounts>::empty(),
            r.internal_messages@ == Map::<usize, MessageCounts>::empty(),
            r.slot_counts == no_slots(),
            r.object_counts == no_objects(),
    {
        AnalysisStats {
            num_threads,
            total_work: 0,
            work_dist: HashMap::new(),
            external_messages: HashMap::new(),
            internal_messages: HashMap::new(),
            slot_counts: SlotCounts {
                slots: 0,
                empty_root_slots: 0,
                non_empty_root_slots: 0,
                visible_empty_slots: 0,
                visible_non_empty_slots_visible_child: 0,
                visible_non_empty_slots_invisible_child: 0,
                invisible_empty_slots: 0,
                invisible_non_empty_slots_visible_child: 0,
                invisible_non_empty_slots_invisible_child: 0,
            },
            object_counts: ObjectCounts {
                marked_objects: 0,
                los_objects: 0,
                los_objarrays: 0,
                total_object_size: 0,
                los_object_size: 0,
                los_objarray_size: 0,
                objarray_slots: 0,
                objarray_empty_slots: 0,
            },
        }
    }
}

/// The thread that owns address `a` when threads own strides of
/// `2^shift` bytes in turn among `2^log` threads.
pub open spec fn owner_of(a: u64, shift: nat, log: nat) -> nat {
    (a as nat / pow2(shift)) % pow2(log)
}

/// The message analysis: `2^log_num_threads` threads, each owning strides
/// of `2^owner_shift` bytes in turn; `rle` sends a group of consecutive
/// slots as one message, and `eager_load` lets a thread load the slots it
/// owns without sending itself a message.
pub struct Analysis {
    pub owner_shift: u64,
    pub log_num_threads: u64,
    pub num_threads: usize,
    pub work_queue: VecDeque<TaggedWork>,
    pub stats: AnalysisStats,
    pub rle: bool,
    pub eager_load: bool,
    pub log_pointer_size: u64,
    /// The bytes of one stride.
    pub stride_length: u64,
    /// How far to go to get to the next stride of the same thread.
    pub next_stride_delta: u64,
}

/// The parameters the analysis can run with: strides hold at least one
/// pointer, and a stride of every thread fits in the address space.
pub open spec fn params_ok(owner_shift: u64, log_num_threads: u64) -> bool {
    &&& 3 <= owner_shift
    &&& owner_shift + log_num_threads < 64
    &&& pow2(log_num_threads as nat) <= usize::MAX
}

impl Analysis {
    /// The parameters and derived constants agree, and every queued work is
    /// for a thread of the analysis.
    pub open spec fn wf(&self) -> bool {
        &&& params_ok(self.owner_shift, self.log_num_threads)
        &&& self.num_threads == pow2(self.log_num_threads as nat)
        &&& self.stats.num_threads == self.num_threads
        &&& self.log_pointer_size == 3
        &&& self.stride_length == pow2(self.owner_shift as nat)
        &&& self.next_stride_delta == pow2((self.owner_shift + self.log_num_threads) as nat)
        &&& forall|i: int| 0 <= i < self.work_queue@.len() ==> worker_ok(#[trigger] self.work_queue@[i], self.num_threads)
    }

    /// The thread that owns address `a`.
    pub open spec fn owner(&self, a: u64) -> nat {
        owner_of(a, self.owner_shift as nat, self.log_num_threads as nat)
    }

    /// The statistics record exactly the works `ts` on top of those of `before`.
    pub open spec fn records(&self, before: &Analysis, ts: Seq<TaggedWork>) -> bool {
        &&& self.work_queue@ == before.work_queue@ + ts
        &&& self.stats.total_work == sat_add(before.stats.total_work, ts.len() as int)
        &&& self.stats.work_dist@ == dist_after(before.stats.work_dist@, ts)
        &&& self.stats.internal_messages@ == messages_after(before.stats.internal_messages@, ts, true)
        &&& self.stats.external_messages@ == messages_after(before.stats.external_messages@, ts, false)
        &&& self.stats.num_threads == before.stats.num_threads
    }

    /// The parameters are those of `before`.
    pub open spec fn same_params(&self, before: &Analysis) -> bool {
        &&& self.owner_shift == before.owner_shift
        &&& self.log_num_threads == before.log_num_threads
        &&& self.num_threads == before.num_threads
        &&& self.rle == before.rle
        &&& self.eager_load == before.eager_load
        &&& self.log_pointer_size == before.log_pointer_size
        &&& self.stride_length == before.stride_length
        &&& self.next_stride_delta == before.next_stride_delta
    }
}

pub proof fn lemma_records_trans(a: &Analysis, b: &Analysis, c: &Analysis, s: Seq<TaggedWork>, t: Seq<TaggedWork>)
    requires
        b.records(a, s),
        c.records(b, t),
    ensures
        c.records(a, s + t),
{
    lemma_dist_after_concat(a.stats.work_dist@, s, t);
    lemma_messages_after_concat(a.stats.internal_messages@, s, t, true);
    lemma_messages_after_concat(a.stats.external_messages@, s, t, false);
    assert(c.work_queue@ =~= a.work_queue@ + (s + t));
}


/// `1 << k` is `2^k`.
proof fn lemma_shl_pow2(k: u64)
    requires
        k < 64,
    ensures
        (1u64 << k) == pow2(k as nat),
        pow2(k as nat) <= u64::MAX,
{
    vstd::bits::lemma_u64_pow2_no_overflow(k as nat);
    vstd::bits::lemma_u64_shl_is_mul(1u64, k);
}

/// The owner of an address, computed with a mask, is its stride number
/// modulo the number of threads.
proof fn lemma_owner_mask(o: u64, s: u64, l: u64)
    requires
        s + l < 64,
    ensures
        ((o & ((((1u64 << l) - 1) as u64) << s)) >> s) as nat == owner_of(o, s as nat, l as nat),
        owner_of(o, s as nat, l as nat) < pow2(l as nat),
{
    assert(((o & ((((1u64 << l) - 1) as u64) << s)) >> s) == ((o >> s) & (((1u64 << l) - 1) as u64))) by (bit_vector)
        requires
            s + l < 64,
    ;
    lemma_shl_pow2(l);
    vstd::arithmetic::power2::lemma_pow2_pos(l as nat);
    assert(vstd::bits::low_bits_mask(l as nat) == pow2(l as nat) - 1);
    vstd::bits::lemma_u64_low_bits_mask_is_mod(o >> s, l as nat);
    vstd::bits::lemma_u64_shr_is_div(o, s);
}

impl Analysis {
    /// An analysis with the parameters of the `analyze` command and nothing
    /// done.
    pub fn from_args(args: AnalysisArgs) -> (r: Self)
        requires
            params_ok(args.owner_shift as u64, args.log_num_threads as u64),
        ensures
            r.wf(),
            r.owner_shift == args.owner_shift,
            r.log_num_threads == args.log_num_threads,
            r.rle == args.rle,
            r.eager_load == args.eager_load,
            r.work_queue@ == Seq::<TaggedWork>::empty(),
            r.stats.total_work == 0,
            r.stats.work_dist@ == Map::<usize, u64>::empty(),
            r.stats.external_messages@ == Map::<usize, MessageCounts>::empty(),
            r.stats.internal_messages@ == Map::<usize, MessageCounts>::empty(),
            r.stats.slot_counts == no_slots(),
            r.stats.object_counts == no_objects(),
    {
        let owner_shift = args.owner_shift as u64;
        let log_num_threads = args.log_num_threads as u64;
        let rle = args.rle;
        let eager_load = args.eager_load;
        proof {
            lemma_shl_pow2(log_num_threads);
            lemma_shl_pow2(owner_shift);
            lemma_shl_pow2((owner_shift + log_num_threads) as u64);
        }
        let num_threads_word: u64 = 1u64 << log_num_threads;
        let num_threads = num_threads_word as usize;
        Analysis {
            owner_shift,
            log_num_threads,
            num_threads,
            work_queue: VecDeque::new(),
            stats: AnalysisStats::new(num_threads),
            rle,
            eager_load,
            log_pointer_size: 3,
            stride_length: 1u64 << owner_shift,
            next_stride_delta: 1u64 << (owner_shift + log_num_threads),
        }
    }

    /// The thread that owns address `o`.
    pub fn get_owner_thread(&self, o: u64) -> (r: usize)
        requires
            self.wf(),
        ensures
            r == self.owner(o),
            r < self.num_threads,
    {
        proof {
            lemma_shl_pow2(self.log_num_threads);
            lemma_owner_mask(o, self.owner_shift, self.log_num_threads);
        }
        let mask: u64 = ((self.num_threads as u64) - 1) << self.owner_shift;
        ((o & mask) >> self.owner_shift) as usize
    }

    /// Drops the queued work.
    pub fn reset(&mut self)
        ensures
            final(self).work_queue@ == Seq::<TaggedWork>::empty(),
            final(self).stats == old(self).stats,
            final(self).same_params(old(self)),
            old(self).wf() ==> final(self).wf(),
    {
        self.work_queue.clear();
    }

    /// Queues `work` and counts it: for the thread that does it, and as a
    /// message within a thread or between threads.
    fn create_work(&mut self, work: TaggedWork)
        requires
            worker_ok(work, old(self).num_threads),
            old(self).wf(),
        ensures
            final(self).wf(),
            final(self).records(old(self), seq![work]),
            final(self).same_params(old(self)),
            final(self).stats.slot_counts == old(self).stats.slot_counts,
            final(self).stats.object_counts == old(self).stats.object_counts,
    {
        proof {
            reveal_with_fuel(dist_after, 2);
            reveal_with_fuel(messages_after, 2);
            assert(seq![work].drop_last() =~= Seq::<TaggedWork>::empty());
        }
        let y: usize = match work.worker {
            Worker::Numbered(y) => y,
            Worker::Environment => 0,
        };
        let count: u64 = match self.stats.work_dist.get(&y) {
            Some(c) => *c,
            None => 0,
        };
        self.stats.work_dist.insert(y, count.saturating_add(1));
        self.stats.total_work = self.stats.total_work.saturating_add(1);
        let kind = work.work.kind();
        let internal = match work.creator {
            Worker::Numbered(x) => x == y,
            Worker::Environment => false,
        };
        if internal {
            let mut c = match self.stats.internal_messages.get(&y) {
                Some(c) => *c,
                None => MessageCounts::new(),
            };
            c.add(kind);
            self.stats.internal_messages.insert(y, c);
        } else {
            let mut c = match self.stats.external_messages.get(&y) {
                Some(c) => *c,
                None => MessageCounts::new(),
            };
            c.add(kind);
            self.stats.external_messages.insert(y, c);
        }
        self.work_queue.push_back(work);
        proof {
            assert forall|i: int| 0 <= i < self.work_queue@.len() implies worker_ok(#[trigger] self.work_queue@[i], self.num_threads) by {
                if i < old(self).work_queue@.len() {
                    assert(self.work_queue@[i] == old(self).work_queue@[i]);
                }
            }
            assert(self.work_queue@ =~= old(self).work_queue@ + seq![work]);
            assert(self.stats.work_dist@ == dist_after(old(self).stats.work_dist@, seq![work]));
            assert(self.stats.internal_messages@ == messages_after(old(self).stats.internal_messages@, seq![work], true));
            assert(self.stats.external_messages@ == messages_after(old(self).stats.external_messages@, seq![work], false));
        }
    }

    /// Queues work for thread `worker` from thread `creator`.
    fn create_tagged(&mut self, creator: usize, worker: usize, work: Work)
        requires
            old(self).wf(),
            worker < old(self).num_threads,
        ensures
            final(self).wf(),
            final(self).records(
                old(self),
                seq![TaggedWork { creator: Worker::Numbered(creator), worker: Worker::Numbered(worker), work }],
            ),
            final(self).same_params(old(self)),
            final(self).stats.slot_counts == old(self).stats.slot_counts,
            final(self).stats.object_counts == old(self).stats.object_counts,
    {
        self.create_work(TaggedWork { creator: Worker::Numbered(creator), worker: Worker::Numbered(worker), work });
    }

    /// Queues the marking of root object `o` for its owner, as a message
    /// from the environment.
    pub(crate) fn create_root_work(&mut self, o: u64)
        requires
            old(self).wf(),
        ensures
            final(self).wf(),
            final(self).records(
                old(self),
                seq![
                    TaggedWork {
                        creator: Worker::Environment,
                        worker: Worker::Numbered(old(self).owner(o) as usize),
                        work: Work::MarkObject(o),
                    },
                ],
            ),
            final(self).same_params(old(self)),
            final(self).stats.slot_counts == old(self).stats.slot_counts,
            final(self).stats.object_counts == old(self).stats.object_counts,
    {
        let owner = self.get_owner_thread(o);
        self.create_work(TaggedWork { creator: Worker::Environment, worker: Worker::Numbered(owner), work: Work::MarkObject(o) });
    }

    /// The first byte of the stride that holds `p`.
    fn get_stride_start(&self, p: u64) -> (r: u64)
        requires
            self.wf(),
        ensures
            r as int == (p as int / self.stride_length as int) * self.stride_length as int,
            r <= p,
            p < r + self.stride_length,
    {
        proof {
            lemma_shl_pow2(self.owner_shift);
            vstd::bits::lemma_u64_shr_is_div(p, self.owner_shift);
            vstd::arithmetic::power2::lemma_pow2_pos(self.owner_shift as nat);
            let d = self.stride_length as int;
            vstd::arithmetic::div_mod::lemma_fundamental_div_mod(p as int, d);
            assert((p / self.stride_length) * d <= p) by (nonlinear_arith)
                requires
                    d > 0,
                    p == d * (p / self.stride_length) + p % self.stride_length,
                    p % self.stride_length >= 0,
            ;
            vstd::bits::lemma_u64_shl_is_mul(p >> self.owner_shift, self.owner_shift);
        }
        (p >> self.owner_shift) << self.owner_shift
    }

    /// The pointers in one stride.
    fn get_pointers_in_stride(&self) -> (r: u64)
        requires
            self.wf(),
        ensures
            r as int * 8 == self.stride_length,
            r >= 1,
    {
        proof {
            lemma_shl_pow2((self.owner_shift - 3) as u64);
            vstd::arithmetic::power2::lemma_pow2_adds((self.owner_shift - 3) as nat, 3);
            vstd::arithmetic::power2::lemma_pow2_pos((self.owner_shift - 3) as nat);
            assert(pow2(3) == 8) by {
                vstd::arithmetic::power2::lemma2_to64();
            }
        }
        1u64 << (self.owner_shift - self.log_pointer_size)
    }

    /// The first byte after the stride that holds `p`.
    fn get_stride_end(&self, p: u64) -> (r: u64)
        requires
            self.wf(),
            p as int + self.stride_length <= u64::MAX,
        ensures
            r as int == (p as int / self.stride_length as int) * self.stride_length as int + self.stride_length,
            p < r,
    {
        let s = self.get_stride_start(p);
        let n = self.get_pointers_in_stride();
        s + 8 * n
    }
}


/// The slot counts after loading a slot that holds `child`, owned by
/// `child_owner`, by thread `worker` on behalf of `creator` (`usize::MAX`:
/// the environment, for a root).
pub open spec fn load_step(c: SlotCounts, creator: usize, worker: usize, child: u64, child_owner: nat) -> SlotCounts {
    let c = SlotCounts { slots: sat_inc(c.slots), ..c };
    let root = creator == usize::MAX;
    let internal = creator == worker;
    let visible = child_owner == worker;
    if child != 0 {
        if root {
            SlotCounts { non_empty_root_slots: sat_inc(c.non_empty_root_slots), ..c }
        } else if internal {
            if visible {
                SlotCounts { visible_non_empty_slots_visible_child: sat_inc(c.visible_non_empty_slots_visible_child), ..c }
            } else {
                SlotCounts {
                    visible_non_empty_slots_invisible_child: sat_inc(c.visible_non_empty_slots_invisible_child),
                    ..c
                }
            }
        } else if visible {
            SlotCounts {
                invisible_non_empty_slots_visible_child: sat_inc(c.invisible_non_empty_slots_visible_child),
                ..c
            }
        } else {
            SlotCounts {
                invisible_non_empty_slots_invisible_child: sat_inc(c.invisible_non_empty_slots_invisible_child),
                ..c
            }
        }
    } else if root {
        SlotCounts { empty_root_slots: sat_inc(c.empty_root_slots), ..c }
    } else if internal {
        SlotCounts { visible_empty_slots: sat_inc(c.visible_empty_slots), ..c }
    } else {
        SlotCounts { invisible_empty_slots: sat_inc(c.invisible_empty_slots), ..c }
    }
}

/// The work created by loading a slot that holds `child`: the marking of a
/// non-null child, sent to its owner.
pub open spec fn load_works(worker: usize, child: u64, child_owner: nat) -> Seq<TaggedWork> {
    if child != 0 {
        seq![
            TaggedWork {
                creator: Worker::Numbered(worker),
                worker: Worker::Numbered(child_owner as usize),
                work: Work::MarkObject(child),
            },
        ]
    } else {
        Seq::empty()
    }
}

impl Analysis {
    /// The slot counts after loading the slots `edges` in order.
    pub open spec fn loads_after(
        &self,
        c: SlotCounts,
        creator: usize,
        worker: usize,
        edges: Seq<u64>,
        mem: Map<u64, u64>,
    ) -> SlotCounts
        decreases edges.len(),
    {
        if edges.len() == 0 {
            c
        } else {
            let child = word_at(mem, edges.last());
            load_step(self.loads_after(c, creator, worker, edges.drop_last(), mem), creator, worker, child, self.owner(child))
        }
    }

    /// The work created by loading the slots `edges` in order.
    pub open spec fn edge_works(&self, worker: usize, edges: Seq<u64>, mem: Map<u64, u64>) -> Seq<TaggedWork>
        decreases edges.len(),
    {
        if edges.len() == 0 {
            Seq::empty()
        } else {
            let child = word_at(mem, edges.last());
            self.edge_works(worker, edges.drop_last(), mem) + load_works(worker, child, self.owner(child))
        }
    }

    /// Thread `worker` loads the slot at `edge` for `creator`; a non-null
    /// child is sent to its owner to be marked.
    fn load_edge(&mut self, creator: usize, worker: usize, edge: u64, mem: &TargetMemory)
        requires
            old(self).wf(),
        ensures
            final(self).wf(),
            final(self).same_params(old(self)),
            final(self).records(old(self), load_works(worker, word_at(mem@, edge), old(self).owner(word_at(mem@, edge)))),
            final(self).stats.slot_counts == load_step(
                old(self).stats.slot_counts,
                creator,
                worker,
                word_at(mem@, edge),
                old(self).owner(word_at(mem@, edge)),
            ),
            final(self).stats.object_counts == old(self).stats.object_counts,
    {
        let is_root_edge = creator == usize::MAX;
        let from_internal_message = creator == worker;
        self.stats.slot_counts.slots = self.stats.slot_counts.slots.saturating_add(1);
        let child = mem.load(edge);
        if child != 0 {
            let child_owner = self.get_owner_thread(child);
            let is_child_visible = child_owner == worker;
            self.create_tagged(worker, child_owner, Work::MarkObject(child));
            if is_root_edge {
                self.stats.slot_counts.non_empty_root_slots = self.stats.slot_counts.non_empty_root_slots.saturating_add(
                    1,
                );
                return ;
            }
            if from_internal_message {
                if is_child_visible {
                    self.stats.slot_counts.visible_non_empty_slots_visible_child =
                    self.stats.slot_counts.visible_non_empty_slots_visible_child.saturating_add(1);
                } else {
                    self.stats.slot_counts.visible_non_empty_slots_invisible_child =
                    self.stats.slot_counts.visible_non_empty_slots_invisible_child.saturating_add(1);
                }
            } else if is_child_visible {
                self.stats.slot_counts.invisible_non_empty_slots_visible_child =
                self.stats.slot_counts.invisible_non_empty_slots_visible_child.saturating_add(1);
            } else {
                self.stats.slot_counts.invisible_non_empty_slots_invisible_child =
                self.stats.slot_counts.invisible_non_empty_slots_invisible_child.saturating_add(1);
            }
        } else if is_root_edge {
            self.stats.slot_counts.empty_root_slots = self.stats.slot_counts.empty_root_slots.saturating_add(1);
        } else if from_internal_message {
            self.stats.slot_counts.visible_empty_slots = self.stats.slot_counts.visible_empty_slots.saturating_add(1);
        } else {
            self.stats.slot_counts.invisible_empty_slots = self.stats.slot_counts.invisible_empty_slots.saturating_add(
                1,
            );
        }
        proof {
            if child == 0 {
                assert(self.work_queue@ =~= old(self).work_queue@ + Seq::<TaggedWork>::empty());
                assert(Seq::<TaggedWork>::empty().len() == 0);
            }
        }
    }
}


/// The slots of a group of `count` consecutive slots from `start`.
pub open spec fn group_slots(start: u64, count: u64) -> Seq<u64> {
    Seq::new(count as nat, |i: int| (start + 8 * i) as u64)
}

/// The number of slots of the group below address `x`.
pub open spec fn slot_index(start: u64, count: u64, x: int) -> int {
    if x <= start {
        0
    } else if x >= start + 8 * count {
        count as int
    } else {
        (x - start + 7) / 8
    }
}

/// The addresses that thread `w` owns.
pub open spec fn owned_pred(shift: nat, log: nat, w: usize) -> spec_fn(u64) -> bool {
    |e: u64| owner_of(e, shift, log) == w
}

proof fn lemma_prefix_step(g: Seq<u64>, j: int, pred: spec_fn(u64) -> bool)
    requires
        0 <= j < g.len(),
    ensures
        g.subrange(0, j + 1).filter(pred) == if pred(g[j]) {
            g.subrange(0, j).filter(pred).push(g[j])
        } else {
            g.subrange(0, j).filter(pred)
        },
{
    assert(g.subrange(0, j + 1) =~= g.subrange(0, j).push(g[j]));
    g.subrange(0, j).lemma_filter_push(g[j], pred);
}

proof fn lemma_prefix_gap(g: Seq<u64>, j1: int, j2: int, pred: spec_fn(u64) -> bool)
    requires
        0 <= j1 <= j2 <= g.len(),
        forall|i: int| j1 <= i < j2 ==> !pred(#[trigger] g[i]),
    ensures
        g.subrange(0, j2).filter(pred) == g.subrange(0, j1).filter(pred),
    decreases j2 - j1,
{
    if j1 < j2 {
        lemma_prefix_gap(g, j1, j2 - 1, pred);
        lemma_prefix_step(g, j2 - 1, pred);
    }
}

/// Every address of a stride of thread `w` belongs to `w`.
proof fn lemma_stride_owned(a: int, q: int, d: int, n: int, w: int)
    requires
        d > 0,
        n > 0,
        0 <= w < n,
        q * d * n + w * d <= a < q * d * n + w * d + d,
    ensures
        (a / d) % n == w,
{
    let m = q * n + w;
    assert(m * d == q * d * n + w * d) by (nonlinear_arith)
        requires
            m == q * n + w,
    ;
    vstd::arithmetic::div_mod::lemma_fundamental_div_mod_converse(a, d, m, a - m * d);
    vstd::arithmetic::div_mod::lemma_fundamental_div_mod_converse(m, n, q, w);
}

/// No address after a stride of thread `w` and before its next stride
/// belongs to `w`.
proof fn lemma_gap_unowned(a: int, q: int, d: int, n: int, w: int)
    requires
        d > 0,
        n > 0,
        0 <= w < n,
        a >= 0,
        q * d * n + w * d + d <= a < q * d * n + w * d + d * n,
    ensures
        (a / d) % n != w,
{
    let m = a / d;
    vstd::arithmetic::div_mod::lemma_fundamental_div_mod(a, d);
    let r = a % d;
    assert(m * d <= a < m * d + d);
    assert(q * n + w + 1 <= m) by (nonlinear_arith)
        requires
            d > 0,
            a < m * d + d,
            q * d * n + w * d + d <= a,
    ;
    assert(m < q * n + w + n) by (nonlinear_arith)
        requires
            d > 0,
            m * d <= a,
            a < q * d * n + w * d + d * n,
    ;
    let t = m - q * n;
    if t < n {
        vstd::arithmetic::div_mod::lemma_fundamental_div_mod_converse(m, n, q, t);
    } else {
        assert(m == (q + 1) * n + (t - n)) by (nonlinear_arith)
            requires
                t == m - q * n,
        ;
        vstd::arithmetic::div_mod::lemma_fundamental_div_mod_converse(m, n, q + 1, t - n);
    }
}

/// The first stride of thread `w` in the block of `x`, computed with
/// shifts, is the block start plus `w` strides.
proof fn lemma_base(x: u64, w: u64, s: u64, l: u64)
    requires
        s + l < 64,
        w < pow2(l as nat),
        x + pow2((s + l) as nat) <= u64::MAX,
    ensures
        ((((x >> ((s + l) as u64)) << l) | w) << s) as int == (x as int / pow2((s + l) as nat) as int) * pow2(
            (s + l) as nat,
        ) as int + w * pow2(s as nat),
        (x as int / pow2((s + l) as nat) as int) * pow2((s + l) as nat) as int <= x,
{
    let sl: u64 = (s + l) as u64;
    lemma_shl_pow2(l);
    lemma_shl_pow2(s);
    lemma_shl_pow2(sl);
    vstd::arithmetic::power2::lemma_pow2_adds(s as nat, l as nat);
    vstd::arithmetic::power2::lemma_pow2_pos(sl as nat);
    vstd::arithmetic::power2::lemma_pow2_pos(s as nat);
    vstd::arithmetic::power2::lemma_pow2_pos(l as nat);
    let bb = pow2(sl as nat) as int;
    let dd = pow2(s as nat) as int;
    let nn = pow2(l as nat) as int;
    vstd::bits::lemma_u64_shr_is_div(x, sl);
    let y = x >> sl;
    assert(y == x as int / bb);
    vstd::arithmetic::div_mod::lemma_fundamental_div_mod(x as int, bb);
    assert(y * bb <= x) by (nonlinear_arith)
        requires
            bb > 0,
            x == bb * y + x as int % bb,
            x as int % bb >= 0,
    ;
    assert(y * nn * dd == y * bb) by (nonlinear_arith)
        requires
            bb == dd * nn,
    ;
    assert(y * nn <= y * nn * dd) by (nonlinear_arith)
        requires
            dd >= 1,
            y >= 0,
            nn >= 1,
    ;
    vstd::bits::lemma_u64_shl_is_mul(y, l);
    let a = y << l;
    assert(a == y * nn);
    assert((a | w) == a + w) by (bit_vector)
        requires
            a == y << l,
            w < (1u64 << l),
            l < 64,
    ;
    assert((y * nn + w) * dd == y * bb + w * dd) by (nonlinear_arith)
        requires
            bb == dd * nn,
    ;
    assert(w * dd < bb) by (nonlinear_arith)
        requires
            w < nn,
            dd > 0,
            bb == dd * nn,
    ;
    assert(x as int % bb < bb);
    assert((y * nn + w) * dd <= u64::MAX);
    vstd::bits::lemma_u64_shl_is_mul(a | w, s);
}

impl Analysis {
    /// The slots of the group from `start` that thread `w` owns, in order.
    pub open spec fn owned_slots(&self, start: u64, count: u64, w: usize) -> Seq<u64> {
        group_slots(start, count).filter(owned_pred(self.owner_shift as nat, self.log_num_threads as nat, w))
    }

    /// Thread `worker` loads, in order, the slots it owns of the group of
    /// `count` slots from `start`, going from one of its strides to the next.
    #[verifier::rlimit(40)]
    fn do_edges(&mut self, creator: usize, worker: usize, start: u64, count: u64, mem: &TargetMemory)
        requires
            old(self).wf(),
            worker < old(self).num_threads,
            start % 8 == 0,
            start + 8 * count + old(self).next_stride_delta <= u64::MAX,
        ensures
            final(self).wf(),
            final(self).same_params(old(self)),
            final(self).records(old(self), old(self).edge_works(worker, old(self).owned_slots(start, count, worker), mem@)),
            final(self).stats.slot_counts == old(self).loads_after(
                old(self).stats.slot_counts,
                creator,
                worker,
                old(self).owned_slots(start, count, worker),
                mem@,
            ),
            final(self).stats.object_counts == old(self).stats.object_counts,
    {
        let ghost g = group_slots(start, count);
        let ghost pred = owned_pred(self.owner_shift as nat, self.log_num_threads as nat, worker);
        let ghost d = self.stride_length as int;
        let ghost n = self.num_threads as int;
        let ghost b = self.next_stride_delta as int;
        let ghost s0 = *self;
        let end = start + 8 * count;
        let sl = self.owner_shift + self.log_num_threads;
        proof {
            vstd::arithmetic::power2::lemma_pow2_adds(self.owner_shift as nat, self.log_num_threads as nat);
            vstd::arithmetic::power2::lemma_pow2_pos(self.owner_shift as nat);
            vstd::arithmetic::power2::lemma_pow2_pos(self.log_num_threads as nat);
            lemma_base(start, worker as u64, self.owner_shift, self.log_num_threads);
            assert(b == d * n) by (nonlinear_arith)
                requires
                    b == pow2((s0.owner_shift + s0.log_num_threads) as nat),
                    pow2((s0.owner_shift + s0.log_num_threads) as nat) == pow2(s0.owner_shift as nat) * pow2(
                        s0.log_num_threads as nat,
                    ),
                    d == pow2(s0.owner_shift as nat),
                    n == pow2(s0.log_num_threads as nat),
            ;
        }
        let stride_base: u64 = (((start >> sl) << self.log_num_threads) | (worker as u64)) << self.owner_shift;
        let ghost q0 = start as int / b;
        let ptrs = self.get_pointers_in_stride();
        let mut stride_start: u64 = stride_base;
        let mut stride_end: u64 = stride_start.wrapping_add(8 * ptrs);
        let ghost mut k: int = 0;
        let ghost mut loaded: Seq<u64> = Seq::empty();
        proof {
            vstd::arithmetic::power2::lemma_pow2_pos((self.owner_shift + self.log_num_threads) as nat);
            assert(q0 * b <= start < q0 * b + b) by {
                vstd::arithmetic::div_mod::lemma_fundamental_div_mod(start as int, b);
            }
            assert(d <= b) by (nonlinear_arith)
                requires
                    b == d * n,
                    n >= 1,
                    d > 0,
            ;
            assert(worker * d + d <= b) by (nonlinear_arith)
                requires
                    worker < n,
                    b == d * n,
                    d > 0,
            ;
            assert(stride_base == q0 * b + worker * d);
            if stride_base > start {
                assert forall|i: int| 0 <= i < slot_index(start, count, stride_base as int) implies !pred(#[trigger] g[i]) by {
                    assert(g[i] == start + 8 * i);
                    assert(q0 * b == (q0 - 1) * d * n + d * n) by (nonlinear_arith)
                        requires
                            b == d * n,
                    ;
                    lemma_gap_unowned(g[i] as int, q0 - 1, d, n, worker as int);
                }
                lemma_prefix_gap(g, 0, slot_index(start, count, stride_base as int), pred);
            }
            assert(g.subrange(0, 0) =~= Seq::<u64>::empty());
            assert(Seq::<u64>::empty().filter(pred) =~= Seq::<u64>::empty());
            assert(self.work_queue@ =~= s0.work_queue@ + s0.edge_works(worker, loaded, mem@));
        }
        loop
            invariant
                self.wf(),
                self.same_params(&s0),
                s0.wf(),
                worker < s0.num_threads,
                start % 8 == 0,
                end == start + 8 * count,
                end + b <= u64::MAX,
                g == group_slots(start, count),
                pred == owned_pred(s0.owner_shift as nat, s0.log_num_threads as nat, worker),
                d == s0.stride_length,
                n == s0.num_threads,
                b == s0.next_stride_delta,
                b == d * n,
                d > 0,
                d % 8 == 0,
                ptrs * 8 == d,
                q0 == start as int / b,
                q0 * b <= start < q0 * b + b,
                d <= b,
                k >= 0,
                stride_start == q0 * b + worker * d + k * b,
                stride_start <= end + b,
                stride_start < end ==> stride_end == stride_start + d,
                loaded == g.subrange(0, slot_index(start, count, stride_start as int)).filter(pred),
                self.records(&s0, s0.edge_works(worker, loaded, mem@)),
                self.stats.slot_counts == s0.loads_after(s0.stats.slot_counts, creator, worker, loaded, mem@),
                self.stats.object_counts == s0.stats.object_counts,
            ensures
                loaded == g.filter(pred),
                self.wf(),
                self.same_params(&s0),
                self.records(&s0, s0.edge_works(worker, loaded, mem@)),
                self.stats.slot_counts == s0.loads_after(s0.stats.slot_counts, creator, worker, loaded, mem@),
                self.stats.object_counts == s0.stats.object_counts,
            decreases end + b - stride_start,
        {
            if stride_start >= end {
                proof {
                    assert(slot_index(start, count, stride_start as int) == count);
                    assert(g.subrange(0, count as int) =~= g);
                }
                break;
            }
            let mut edge: u64 = if start > stride_start {
                start
            } else {
                stride_start
            };
            proof {
                let e = d / 8;
                assert(stride_start == 8 * ((q0 + k) * e * n + worker * e)) by (nonlinear_arith)
                    requires
                        stride_start == q0 * b + worker * d + k * b,
                        b == d * n,
                        d == 8 * e,
                ;
                vstd::arithmetic::div_mod::lemma_mod_multiples_basic((q0 + k) * e * n + worker * e, 8);
                assert(stride_start % 8 == 0);
                assert(stride_end % 8 == 0);
                assert(k * b + q0 * b == (q0 + k) * d * n) by (nonlinear_arith)
                    requires
                        b == d * n,
                ;
            }
            while edge < stride_end
                invariant
                    edge <= stride_end || (edge == start && start > stride_end),
                    stride_end % 8 == 0,
                    self.wf(),
                    self.same_params(&s0),
                    s0.wf(),
                    worker < s0.num_threads,
                    end == start + 8 * count,
                    end + b <= u64::MAX,
                    g == group_slots(start, count),
                    pred == owned_pred(s0.owner_shift as nat, s0.log_num_threads as nat, worker),
                    d == s0.stride_length,
                    n == s0.num_threads,
                    b == d * n,
                    d > 0,
                    stride_start < end,
                    stride_end == stride_start + d,
                    stride_start == (q0 + k) * d * n + worker * d,
                    edge % 8 == 0,
                    start % 8 == 0,
                    edge >= start,
                    edge >= stride_start,
                    edge < end + 8,
                    loaded == g.subrange(0, slot_index(start, count, edge as int)).filter(pred),
                    self.records(&s0, s0.edge_works(worker, loaded, mem@)),
                    self.stats.slot_counts == s0.loads_after(s0.stats.slot_counts, creator, worker, loaded, mem@),
                    self.stats.object_counts == s0.stats.object_counts,
                ensures
                    edge >= end || edge >= stride_end,
                    loaded == g.subrange(0, slot_index(start, count, edge as int)).filter(pred),
                    edge < end + 8,
                    self.wf(),
                    self.same_params(&s0),
                    self.records(&s0, s0.edge_works(worker, loaded, mem@)),
                    self.stats.slot_counts == s0.loads_after(s0.stats.slot_counts, creator, worker, loaded, mem@),
                    self.stats.object_counts == s0.stats.object_counts,
                decreases stride_end - edge,
            {
                if edge >= end {
                    break;
                }
                let ghost j = slot_index(start, count, edge as int);
                let ghost before = *self;
                proof {
                    assert((edge - start) % 8 == 0);
                    assert(j == (edge - start) / 8);
                    assert(g[j] == edge);
                    lemma_stride_owned(edge as int, q0 + k, d, n, worker as int);
                    assert(pred(g[j]));
                    lemma_prefix_step(g, j, pred);
                    assert(slot_index(start, count, edge + 8) == j + 1);
                }
                self.load_edge(creator, worker, edge, mem);
                proof {
                    let lw = load_works(worker, word_at(mem@, edge), s0.owner(word_at(mem@, edge)));
                    lemma_records_trans(&s0, &before, self, s0.edge_works(worker, loaded, mem@), lw);
                    let loaded2 = loaded.push(edge);
                    assert(loaded2.drop_last() =~= loaded);
                    loaded = loaded2;
                }
                edge = edge + 8;
            }
            proof {
                let j1 = slot_index(start, count, edge as int);
                let j2 = slot_index(start, count, stride_start + b);
                if edge >= end {
                    if edge == start && start > stride_end {
                        assert(count == 0);
                    } else {
                        assert(end <= stride_start + d);
                    }
                    assert(j1 == count);
                    assert(j2 == count);
                } else {
                    assert forall|i: int| j1 <= i < j2 implies !pred(#[trigger] g[i]) by {
                        assert(g[i] == start + 8 * i);
                        assert(g[i] >= edge);
                        assert(g[i] < stride_start + b);
                        lemma_gap_unowned(g[i] as int, q0 + k, d, n, worker as int);
                    }
                    lemma_prefix_gap(g, j1, j2, pred);
                }
                assert((k + 1) * b == k * b + b) by (nonlinear_arith);
                k = k + 1;
            }
            stride_start = stride_start + self.next_stride_delta;
            stride_end = stride_start.wrapping_add(8 * ptrs);
        }
    }
}


impl Analysis {
    /// An `Edges` message from thread `sender` to thread `worker`.
    pub open spec fn edges_work(&self, sender: usize, worker: nat, start: u64, count: u64) -> TaggedWork {
        TaggedWork {
            creator: Worker::Numbered(sender),
            worker: Worker::Numbered(worker as usize),
            work: Work::Edges { start, count },
        }
    }

    /// The slots of a group from `start` that fit in the stride of `start`.
    pub open spec fn fit_in_first_stride(&self, start: u64) -> int {
        let d = self.stride_length as int;
        ((start as int / d) * d + d - start) / 8
    }

    /// How many threads after the owner of `start` a group of `count` slots
    /// reaches: one per further stride, up to all the other threads.
    pub open spec fn extra_receivers(&self, start: u64, count: u64) -> int {
        let fit = self.fit_in_first_stride(start);
        let p = self.stride_length as int / 8;
        if count > fit {
            let strides = (count - fit + p - 1) / p;
            if strides < self.num_threads - 1 {
                strides
            } else {
                self.num_threads - 1
            }
        } else {
            0
        }
    }

    /// The sender owns the first slot and may load slots itself.
    pub open spec fn eager_own(&self, sender: usize, start: u64) -> bool {
        self.eager_load && self.owner(start) == sender
    }

    /// The slots that `send_edges` loads right away.
    pub open spec fn sent_loads(&self, sender: usize, start: u64, count: u64) -> Seq<u64> {
        if count == 0 || !self.eager_own(sender, start) || (count > 1 && !self.rle) {
            Seq::empty()
        } else if count == 1 {
            seq![start]
        } else {
            self.owned_slots(start, count, sender)
        }
    }

    /// The `Edges` messages that `send_edges` sends.
    pub open spec fn sent_works(&self, sender: usize, start: u64, count: u64) -> Seq<TaggedWork> {
        if count == 0 {
            Seq::empty()
        } else if count == 1 {
            if self.eager_own(sender, start) {
                Seq::empty()
            } else {
                seq![self.edges_work(sender, self.owner(start), start, 1)]
            }
        } else if !self.rle {
            Seq::new(
                count as nat,
                |i: int| self.edges_work(sender, self.owner((start + 8 * i) as u64), (start + 8 * i) as u64, 1),
            )
        } else {
            let first = if self.eager_own(sender, start) {
                Seq::empty()
            } else {
                seq![self.edges_work(sender, self.owner(start), start, count)]
            };
            first + Seq::new(
                self.extra_receivers(start, count) as nat,
                |i: int| self.edges_work(sender, ((self.owner(start) + 1 + i) % self.num_threads as int) as nat, start, count),
            )
        }
    }

    /// Thread `sender` has the group of `count` slots from `start` loaded:
    /// it loads a single slot of its own itself when it may, and otherwise
    /// sends it to its owner; without `rle` it sends each slot to its owner
    /// on its own; with `rle` it sends the whole group to the owner of the
    /// first slot (or loads its own slots itself when it may) and to the
    /// owner of each further stride the group reaches.
    #[verifier::rlimit(40)]
    fn send_edges(&mut self, sender: usize, start: u64, count: u64, mem: &TargetMemory)
        requires
            old(self).wf(),
            sender < old(self).num_threads,
            start % 8 == 0,
            start + 8 * count + old(self).next_stride_delta <= u64::MAX,
        ensures
            final(self).wf(),
            final(self).same_params(old(self)),
            final(self).records(
                old(self),
                old(self).edge_works(sender, old(self).sent_loads(sender, start, count), mem@) + old(
                    self,
                ).sent_works(sender, start, count),
            ),
            final(self).stats.slot_counts == old(self).loads_after(
                old(self).stats.slot_counts,
                sender,
                sender,
                old(self).sent_loads(sender, start, count),
                mem@,
            ),
            final(self).stats.object_counts == old(self).stats.object_counts,
    {
        let ghost s0 = *self;
        proof {
            reveal_with_fuel(Analysis::edge_works, 2);
            reveal_with_fuel(Analysis::loads_after, 2);
            assert(seq![start].drop_last() =~= Seq::<u64>::empty());
            vstd::arithmetic::power2::lemma_pow2_adds(self.owner_shift as nat, self.log_num_threads as nat);
            vstd::arithmetic::power2::lemma_pow2_pos(self.owner_shift as nat);
            vstd::arithmetic::power2::lemma_pow2_pos(self.log_num_threads as nat);
            assert(self.stride_length <= self.next_stride_delta) by (nonlinear_arith)
                requires
                    self.next_stride_delta == self.stride_length * self.num_threads,
                    self.num_threads >= 1,
                    self.stride_length > 0,
            ;
        }
        if count == 0 {
            proof {
                assert(self.work_queue@ =~= s0.work_queue@ + (Seq::<TaggedWork>::empty() + Seq::<TaggedWork>::empty()));
            }
            return ;
        }
        if count == 1 {
            let edge_owner = self.get_owner_thread(start);
            if edge_owner == sender && self.eager_load {
                self.load_edge(sender, sender, start, mem);
                proof {
                    let e = s0.edge_works(sender, seq![start], mem@);
                    assert(e + Seq::<TaggedWork>::empty() =~= e);
                }
            } else {
                self.create_tagged(sender, edge_owner, Work::Edges { start, count });
                proof {
                    let w = seq![s0.edges_work(sender, s0.owner(start), start, 1)];
                    assert(Seq::<TaggedWork>::empty() + w =~= w);
                }
            }
            return ;
        }
        if !self.rle {
            let ghost works = Seq::new(
                count as nat,
                |i: int| s0.edges_work(sender, s0.owner((start + 8 * i) as u64), (start + 8 * i) as u64, 1),
            );
            let mut i: u64 = 0;
            proof {
                assert(self.work_queue@ =~= s0.work_queue@ + works.subrange(0, 0));
            }
            while i < count
                invariant
                    self.wf(),
                    self.same_params(&s0),
                    s0.wf(),
                    !s0.rle,
                    i <= count,
                    start + 8 * count <= u64::MAX,
                    works == Seq::new(
                        count as nat,
                        |i: int| s0.edges_work(sender, s0.owner((start + 8 * i) as u64), (start + 8 * i) as u64, 1),
                    ),
                    self.records(&s0, works.subrange(0, i as int)),
                    self.stats.slot_counts == s0.stats.slot_counts,
                    self.stats.object_counts == s0.stats.object_counts,
                decreases count - i,
            {
                let edge = start + 8 * i;
                let edge_owner = self.get_owner_thread(edge);
                let ghost before = *self;
                self.create_tagged(sender, edge_owner, Work::Edges { start: edge, count: 1 });
                proof {
                    lemma_records_trans(&s0, &before, self, works.subrange(0, i as int), seq![works[i as int]]);
                    assert(works.subrange(0, i as int) + seq![works[i as int]] =~= works.subrange(0, i + 1));
                }
                i += 1;
            }
            proof {
                assert(works.subrange(0, count as int) =~= works);
                assert(Seq::<TaggedWork>::empty() + works =~= works);
            }
            return ;
        }
        // A group of more than one slot, sent as one message per thread.
        let edge_owner = self.get_owner_thread(start);
        let stride_end = self.get_stride_end(start);
        let ptrs_fit_in_1st_stride = (stride_end - start) >> self.log_pointer_size;
        proof {
            assert(((stride_end - start) as u64) >> 3u64 == ((stride_end - start) as u64) / 8) by (bit_vector);
        }
        let ghost first: Seq<TaggedWork> = if s0.eager_own(sender, start) {
            Seq::empty()
        } else {
            seq![s0.edges_work(sender, s0.owner(start), start, count)]
        };
        if edge_owner == sender && self.eager_load {
            self.do_edges(sender, edge_owner, start, count, mem);
            proof {
                assert(s0.sent_loads(sender, start, count) == s0.owned_slots(start, count, sender));
                let lw0 = s0.edge_works(sender, s0.owned_slots(start, count, sender), mem@);
                assert(lw0 + first =~= lw0);
            }
        } else {
            self.create_tagged(sender, edge_owner, Work::Edges { start, count });
            proof {
                assert(s0.sent_loads(sender, start, count) =~= Seq::<u64>::empty());
                assert(Seq::<TaggedWork>::empty() + first =~= first);
            }
        }
        let ghost loads = s0.sent_loads(sender, start, count);
        let ghost lw = s0.edge_works(sender, loads, mem@);
        let ghost extra = Seq::new(
            s0.extra_receivers(start, count) as nat,
            |i: int| s0.edges_work(sender, ((s0.owner(start) + 1 + i) % s0.num_threads as int) as nat, start, count),
        );
        assert(self.records(&s0, lw + first));
        let ptr_in_stride = self.get_pointers_in_stride();
        if count > ptrs_fit_in_1st_stride {
            proof {
                lemma_shl_pow2(self.log_num_threads);
                let l = self.log_num_threads;
                assert(l <= 60 ==> (1u64 << l) <= 0x1000_0000_0000_0000u64) by (bit_vector);
                assert(self.num_threads <= 0x1000_0000_0000_0000u64);
                assert(ptr_in_stride * 8 <= u64::MAX);
                assert(count * 8 <= u64::MAX);
            }
            let leftover = count - ptrs_fit_in_1st_stride;
            let leftover_strides = (leftover + (ptr_in_stride - 1)) / ptr_in_stride;
            proof {
                assert(leftover_strides <= leftover) by (nonlinear_arith)
                    requires
                        leftover_strides == (leftover + (ptr_in_stride - 1)) / ptr_in_stride as int,
                        ptr_in_stride >= 1,
                        leftover >= 1,
                ;
                assert(s0.fit_in_first_stride(start) == ptrs_fit_in_1st_stride);
                assert(s0.stride_length as int / 8 == ptr_in_stride);
            }
            let n = self.num_threads as u64;
            let lo = (edge_owner as u64) + 1;
            let hi = if (edge_owner as u64) + n < (edge_owner as u64) + leftover_strides + 1 {
                (edge_owner as u64) + n
            } else {
                (edge_owner as u64) + leftover_strides + 1
            };
            proof {
                assert(hi - lo == s0.extra_receivers(start, count));
                assert(self.work_queue@ =~= s0.work_queue@ + ((lw + first) + extra.subrange(0, 0)));
            }
            let mut i: u64 = lo;
            while i < hi
                invariant
                    self.wf(),
                    self.same_params(&s0),
                    s0.wf(),
                    lo <= i <= hi,
                    lo == s0.owner(start) + 1,
                    hi - lo == extra.len(),
                    n == s0.num_threads,
                    n > 0,
                    extra == Seq::new(
                        s0.extra_receivers(start, count) as nat,
                        |i: int| s0.edges_work(
                            sender,
                            ((s0.owner(start) + 1 + i) % s0.num_threads as int) as nat,
                            start,
                            count,
                        ),
                    ),
                    self.records(&s0, (lw + first) + extra.subrange(0, i - lo)),
                    self.stats.slot_counts == s0.loads_after(s0.stats.slot_counts, sender, sender, loads, mem@),
                    self.stats.object_counts == s0.stats.object_counts,
                decreases hi - i,
            {
                let worker = (i % n) as usize;
                let ghost before = *self;
                self.create_tagged(sender, worker, Work::Edges { start, count });
                proof {
                    let k = i - lo;
                    assert(extra[k] == s0.edges_work(sender, worker as nat, start, count));
                    lemma_records_trans(&s0, &before, self, (lw + first) + extra.subrange(0, k), seq![extra[k]]);
                    assert((lw + first) + extra.subrange(0, k) + seq![extra[k]] =~= (lw + first) + extra.subrange(0, k + 1));
                }
                i += 1;
            }
            proof {
                assert(extra.subrange(0, extra.len() as int) =~= extra);
                assert((lw + first) + extra =~= lw + (first + extra));
                assert(s0.sent_works(sender, start, count) =~= first + extra);
            }
        } else {
            proof {
                assert(s0.extra_receivers(start, count) == 0);
                assert(extra =~= Seq::<TaggedWork>::empty());
                assert((lw + first) =~= lw + (first + extra));
                assert(s0.sent_works(sender, start, count) =~= first + extra);
            }
        }
        proof {
            assert(s0.sent_works(sender, start, count) == first + extra);
            assert(self.records(&s0, lw + (first + extra)));
        }
    }
}


/// Memory `mem` with object `o` marked.
pub open spec fn mark_word(mem: Map<u64, u64>, o: u64) -> Map<u64, u64> {
    mem.insert(o, with_byte(word_at(mem, o), 1, MARK_BYTE_OFFSET as int))
}

/// The status byte of the header of `o`.
pub open spec fn status_at(mem: Map<u64, u64>, o: u64) -> u8 {
    byte_of(word_at(mem, o), STATUS_BYTE_OFFSET as int)
}

/// The reference-count byte of the header of `o`.
pub open spec fn numrefs_at(mem: Map<u64, u64>, o: u64) -> u8 {
    byte_of(word_at(mem, o), NUMREFS_BYTE_OFFSET as int)
}

/// How many of the slots `slots` hold null.
pub open spec fn null_slots(mem: Map<u64, u64>, slots: Seq<u64>) -> nat {
    slots.filter(|s: u64| word_at(mem, s) == 0).len()
}

/// The object counts after marking an object of `size` bytes, in the large
/// object space or not, an object array or not, whose slots are `slots`.
pub open spec fn mark_counts(
    c: ObjectCounts,
    size: u64,
    los: bool,
    objarray: bool,
    mem: Map<u64, u64>,
    slots: Seq<u64>,
) -> ObjectCounts {
    ObjectCounts {
        marked_objects: sat_inc(c.marked_objects),
        total_object_size: sat_add(c.total_object_size, size as int),
        los_objects: if los {
            sat_inc(c.los_objects)
        } else {
            c.los_objects
        },
        los_object_size: if los {
            sat_add(c.los_object_size, size as int)
        } else {
            c.los_object_size
        },
        los_objarrays: if los && objarray {
            sat_inc(c.los_objarrays)
        } else {
            c.los_objarrays
        },
        los_objarray_size: if los && objarray {
            sat_add(c.los_objarray_size, size as int)
        } else {
            c.los_objarray_size
        },
        objarray_slots: if objarray {
            sat_add(c.objarray_slots, slots.len() as int)
        } else {
            c.objarray_slots
        },
        objarray_empty_slots: if objarray {
            sat_add(c.objarray_empty_slots, null_slots(mem, slots) as int)
        } else {
            c.objarray_empty_slots
        },
    }
}

impl Analysis {
    /// Counts object `o` of `size` bytes when it is in the large object space.
    fn do_los_object_stats(&mut self, o: u64, object_size: u64, model: &BidirectionalObjectModel<true>, mem: &TargetMemory)
        requires
            1 <= space_code(o) <= 4,
            model.can_scan(mem@, o),
        ensures
            final(self).object_counts_only(old(self)),
            ({
                let los = space_code(o) == 3;
                let arr = model.objarray(mem@, o);
                let c = old(self).stats.object_counts;
                final(self).stats.object_counts == ObjectCounts {
                    los_objects: if los {
                        sat_inc(c.los_objects)
                    } else {
                        c.los_objects
                    },
                    los_object_size: if los {
                        sat_add(c.los_object_size, object_size as int)
                    } else {
                        c.los_object_size
                    },
                    los_objarrays: if los && arr {
                        sat_inc(c.los_objarrays)
                    } else {
                        c.los_objarrays
                    },
                    los_objarray_size: if los && arr {
                        sat_add(c.los_objarray_size, object_size as int)
                    } else {
                        c.los_objarray_size
                    },
                    ..c
                }
            }),
    {
        match HeapDump::get_space_type(o) {
            Space::Los => {
                self.stats.object_counts.los_object_size = self.stats.object_counts.los_object_size.saturating_add(
                    object_size,
                );
                self.stats.object_counts.los_objects = self.stats.object_counts.los_objects.saturating_add(1);
                let is_objarray = model.is_objarray(mem, o);
                if is_objarray {
                    self.stats.object_counts.los_objarrays = self.stats.object_counts.los_objarrays.saturating_add(1);
                    self.stats.object_counts.los_objarray_size =
                    self.stats.object_counts.los_objarray_size.saturating_add(object_size);
                }
            },
            _ => {},
        }
    }

    /// Only the object counts changed from `before`.
    pub open spec fn object_counts_only(&self, before: &Analysis) -> bool {
        &&& self.same_params(before)
        &&& self.records(before, Seq::empty())
        &&& self.stats.slot_counts == before.stats.slot_counts
        &&& (before.wf() ==> self.wf())
    }

    /// Counts the slots of object `o`, and those that hold null, when it is
    /// an object array.
    fn do_objarray_slot_stats(&mut self, o: u64, model: &BidirectionalObjectModel<true>, mem: &TargetMemory)
        requires
            model.can_scan(mem@, o),
        ensures
            final(self).object_counts_only(old(self)),
            ({
                let arr = model.objarray(mem@, o);
                let slots = expand_chunks(model.scan_chunks(mem@, o));
                let c = old(self).stats.object_counts;
                final(self).stats.object_counts == ObjectCounts {
                    objarray_slots: if arr {
                        sat_add(c.objarray_slots, slots.len() as int)
                    } else {
                        c.objarray_slots
                    },
                    objarray_empty_slots: if arr {
                        sat_add(c.objarray_empty_slots, null_slots(mem@, slots) as int)
                    } else {
                        c.objarray_empty_slots
                    },
                    ..c
                }
            }),
    {
        let ghost s0 = *self;
        proof {
            assert(self.work_queue@ =~= s0.work_queue@ + Seq::<TaggedWork>::empty());
        }
        let is_objarray = model.is_objarray(mem, o);
        if is_objarray {
            let chunks = model.scan_object(mem, o);
            let ghost pred = |s: u64| word_at(mem@, s) == 0;
            let mut c: usize = 0;
            while c < chunks.len()
                invariant
                    self.object_counts_only(&s0),
                    c <= chunks@.len(),
                    chunks@ == model.scan_chunks(mem@, o),
                    pred == (|s: u64| word_at(mem@, s) == 0),
                    self.stats.object_counts == (ObjectCounts {
                        objarray_slots: sat_add(
                            s0.stats.object_counts.objarray_slots,
                            expand_chunks(chunks@.subrange(0, c as int)).len() as int,
                        ),
                        objarray_empty_slots: sat_add(
                            s0.stats.object_counts.objarray_empty_slots,
                            expand_chunks(chunks@.subrange(0, c as int)).filter(pred).len() as int,
                        ),
                        ..s0.stats.object_counts
                    }),
                decreases chunks@.len() - c,
            {
                let (e, repeat) = chunks[c];
                let ghost done = expand_chunks(chunks@.subrange(0, c as int));
                let ghost tail = Seq::new(repeat as nat, |j: int| chunk_slot((e, repeat), j));
                let mut i: u64 = 0;
                proof {
                    assert(tail.subrange(0, 0) =~= Seq::<u64>::empty());
                    assert(done + tail.subrange(0, 0) =~= done);
                }
                while i < repeat
                    invariant
                        self.object_counts_only(&s0),
                        i <= repeat,
                        tail == Seq::new(repeat as nat, |j: int| chunk_slot((e, repeat), j)),
                        pred == (|s: u64| word_at(mem@, s) == 0),
                        self.stats.object_counts == (ObjectCounts {
                            objarray_slots: sat_add(
                                s0.stats.object_counts.objarray_slots,
                                (done + tail.subrange(0, i as int)).len() as int,
                            ),
                            objarray_empty_slots: sat_add(
                                s0.stats.object_counts.objarray_empty_slots,
                                (done + tail.subrange(0, i as int)).filter(pred).len() as int,
                            ),
                            ..s0.stats.object_counts
                        }),
                    decreases repeat - i,
                {
                    let edge = e.wrapping_add(i.wrapping_mul(8));
                    proof {
                        let m = 0x1_0000_0000_0000_0000int;
                        vstd::arithmetic::div_mod::lemma_add_mod_noop(e as int, 8 * i, m);
                        vstd::arithmetic::div_mod::lemma_small_mod(e as nat, m as nat);
                        assert(edge == chunk_slot((e, repeat), i as int));
                        assert((done + tail.subrange(0, i + 1)) =~= (done + tail.subrange(0, i as int)).push(edge));
                        (done + tail.subrange(0, i as int)).lemma_filter_push(edge, pred);
                    }
                    self.stats.object_counts.objarray_slots = self.stats.object_counts.objarray_slots.saturating_add(1);
                    let child = mem.load(edge);
                    if child == 0 {
                        self.stats.object_counts.objarray_empty_slots =
                        self.stats.object_counts.objarray_empty_slots.saturating_add(1);
                    }
                    i += 1;
                }
                proof {
                    assert(tail.subrange(0, repeat as int) =~= tail);
                    assert(chunks@.subrange(0, c + 1).drop_last() =~= chunks@.subrange(0, c as int));
                    assert(chunks@.subrange(0, c + 1).last() == (e, repeat));
                }
                c += 1;
            }
            proof {
                assert(chunks@.subrange(0, chunks@.len() as int) =~= chunks@);
            }
        }
    }
}


/// Two analyses with the same parameters describe loads alike.
pub(crate) proof fn lemma_params_agree(
    a: &Analysis,
    b: &Analysis,
    creator: usize,
    w: usize,
    edges: Seq<u64>,
    mem: Map<u64, u64>,
    c: SlotCounts,
)
    requires
        a.same_params(b),
    ensures
        a.edge_works(w, edges, mem) == b.edge_works(w, edges, mem),
        a.loads_after(c, creator, w, edges, mem) == b.loads_after(c, creator, w, edges, mem),
    decreases edges.len(),
{
    if edges.len() > 0 {
        lemma_params_agree(a, b, creator, w, edges.drop_last(), mem, c);
    }
}

/// Object `o` can be marked and scanned: its header carries a known
/// status, its address names a space, its TIB is known, and the slots its
/// header lists, with a stride of every thread after them, lie in the
/// address space.
pub open spec fn mark_ready(model: &BidirectionalObjectModel<true>, mem: Map<u64, u64>, o: u64, b: u64) -> bool {
    &&& status_known(mem, o)
    &&& 1 <= space_code(o) <= 4
    &&& model.can_scan(mark_word(mem, o), o)
    &&& o % 8 == 0
    &&& status_at(mem, o) == STATUS_ORDINARY ==> o + 16 + 8 * numrefs_at(mem, o) + b <= u64::MAX
}

impl Analysis {
    /// The slots that marking `o` loads right away (`mem`: after marking).
    pub open spec fn mark_loads(&self, mem: Map<u64, u64>, o: u64) -> Seq<u64> {
        if status_at(mem, o) == STATUS_ORDINARY {
            self.sent_loads(self.owner(o) as usize, o.wrapping_add(16), numrefs_at(mem, o) as u64)
        } else {
            Seq::empty()
        }
    }

    /// The work that marking `o` creates (`mem`: after marking): the slots
    /// its header lists, the reading of its array length, or the reading of
    /// its TIB pointer.
    pub open spec fn mark_works(&self, mem: Map<u64, u64>, o: u64) -> Seq<TaggedWork> {
        let st = status_at(mem, o);
        let ow = self.owner(o) as usize;
        if st == STATUS_ORDINARY {
            self.edge_works(ow, self.mark_loads(mem, o), mem) + self.sent_works(
                ow,
                o.wrapping_add(16),
                numrefs_at(mem, o) as u64,
            )
        } else if st == STATUS_OBJ_ARRAY {
            seq![
                TaggedWork {
                    creator: Worker::Numbered(ow),
                    worker: Worker::Numbered(self.owner(o.wrapping_add(16)) as usize),
                    work: Work::ScanRefarray(o),
                },
            ]
        } else if st == STATUS_FALLBACK {
            seq![
                TaggedWork {
                    creator: Worker::Numbered(ow),
                    worker: Worker::Numbered(self.owner(o.wrapping_add(8)) as usize),
                    work: Work::LoadTIB(o),
                },
            ]
        } else {
            Seq::empty()
        }
    }

    /// Marks object `o` unless it is marked already, counts it, and scans
    /// it as far as its header allows: the slots a header lists are sent
    /// right away; an array has its length read, and an object whose header
    /// defers to its TIB has its TIB pointer read, by the owners of those
    /// words.
    #[verifier::rlimit(40)]
    fn do_mark_object(&mut self, o: u64, model: &BidirectionalObjectModel<true>, mem: &mut TargetMemory)
        requires
            old(self).wf(),
            model.sizes_spec().contains_key(o),
            !is_marked_in(old(mem)@, o, 1) ==> mark_ready(model, old(mem)@, o, old(self).next_stride_delta),
        ensures
            final(self).wf(),
            final(self).same_params(old(self)),
            is_marked_in(old(mem)@, o, 1) ==> {
                &&& final(mem)@ == old(mem)@
                &&& final(self).records(old(self), Seq::empty())
                &&& final(self).stats.slot_counts == old(self).stats.slot_counts
                &&& final(self).stats.object_counts == old(self).stats.object_counts
            },
            !is_marked_in(old(mem)@, o, 1) ==> {
                &&& final(mem)@ == mark_word(old(mem)@, o)
                &&& final(self).records(old(self), old(self).mark_works(final(mem)@, o))
                &&& final(self).stats.slot_counts == old(self).loads_after(
                    old(self).stats.slot_counts,
                    old(self).owner(o) as usize,
                    old(self).owner(o) as usize,
                    old(self).mark_loads(final(mem)@, o),
                    final(mem)@,
                )
                &&& final(self).stats.object_counts == mark_counts(
                    old(self).stats.object_counts,
                    model.sizes_spec()[o],
                    space_code(o) == 3,
                    model.objarray(final(mem)@, o),
                    final(mem)@,
                    expand_chunks(model.scan_chunks(final(mem)@, o)),
                )
            },
    {
        let ghost s0 = *self;
        let mut header = Header::load(mem, o);
        let mark_byte = header.get_mark_byte();
        if mark_byte == 1 {
            proof {
                assert(self.work_queue@ =~= s0.work_queue@ + Seq::<TaggedWork>::empty());
            }
            return ;
        }
        let status_byte = header.get_byte(STATUS_BYTE_OFFSET);
        let num_refs = header.get_byte(NUMREFS_BYTE_OFFSET);
        self.stats.object_counts.marked_objects = self.stats.object_counts.marked_objects.saturating_add(1);
        let object_size = *model.object_sizes().get(&o).unwrap();
        self.stats.object_counts.total_object_size = self.stats.object_counts.total_object_size.saturating_add(
            object_size,
        );
        header.set_mark_byte(1);
        header.store(mem, o);
        let ghost m1 = mem@;
        proof {
            lemma_get_set_other(word_at(old(mem)@, o), 1, MARK_BYTE_OFFSET as int, STATUS_BYTE_OFFSET as int);
            lemma_get_set_other(word_at(old(mem)@, o), 1, MARK_BYTE_OFFSET as int, NUMREFS_BYTE_OFFSET as int);
            assert(m1 == mark_word(old(mem)@, o));
            assert(status_at(m1, o) == status_byte);
            assert(numrefs_at(m1, o) == num_refs);
        }
        let ghost s1 = *self;
        let object_owner = self.get_owner_thread(o);
        if status_byte == STATUS_NO_REF {
            proof {
                assert(self.work_queue@ =~= s0.work_queue@ + Seq::<TaggedWork>::empty());
            }
        } else if status_byte == STATUS_ORDINARY {
            self.send_edges(object_owner, o.wrapping_add(16), num_refs as u64, mem);
            proof {
                let l = s0.sent_loads(object_owner, o.wrapping_add(16), num_refs as u64);
                lemma_params_agree(&s0, &s1, object_owner, object_owner, l, m1, s0.stats.slot_counts);
                assert(s1.sent_loads(object_owner, o.wrapping_add(16), num_refs as u64) == l);
                assert(s1.sent_works(object_owner, o.wrapping_add(16), num_refs as u64) == s0.sent_works(
                    object_owner,
                    o.wrapping_add(16),
                    num_refs as u64,
                ));
                assert(s0.mark_loads(m1, o) == l);
                assert(self.records(&s1, s0.mark_works(m1, o)));
            }
        } else if status_byte == STATUS_OBJ_ARRAY {
            let array_length_owner = self.get_owner_thread(o.wrapping_add(16));
            self.create_tagged(object_owner, array_length_owner, Work::ScanRefarray(o));
            proof {
                assert(self.records(&s1, s0.mark_works(m1, o)));
            }
        } else {
            let tib_owner = self.get_owner_thread(o.wrapping_add(8));
            self.create_tagged(object_owner, tib_owner, Work::LoadTIB(o));
            proof {
                assert(status_byte == STATUS_FALLBACK);
                assert(self.records(&s1, s0.mark_works(m1, o)));
            }
        }
        let ghost s2 = *self;
        self.do_los_object_stats(o, object_size, model, mem);
        let ghost s3 = *self;
        self.do_objarray_slot_stats(o, model, mem);
        proof {
            let mw = s0.mark_works(m1, o);
            assert(s1.work_queue@ =~= s0.work_queue@ + Seq::<TaggedWork>::empty());
            assert(s1.records(&s0, Seq::empty()));
            lemma_params_agree(&s0, &s1, object_owner, object_owner, s0.mark_loads(m1, o), m1, s0.stats.slot_counts);
            if status_byte == STATUS_NO_REF {
                assert(s2.work_queue@ =~= s1.work_queue@ + mw);
            }
            assert(s2.records(&s1, mw));
            lemma_records_trans(&s0, &s1, &s2, Seq::empty(), mw);
            assert(Seq::<TaggedWork>::empty() + mw =~= mw);
            lemma_records_trans(&s2, &s3, self, Seq::empty(), Seq::empty());
            lemma_records_trans(&s0, &s2, self, mw, Seq::empty());
            assert(mw + Seq::<TaggedWork>::empty() =~= mw);
        }
    }
}


/// The creator of a piece of work as a number (`usize::MAX`: the environment).
pub open spec fn creator_id(t: TaggedWork) -> usize {
    match t.creator {
        Worker::Numbered(x) => x,
        Worker::Environment => usize::MAX,
    }
}

/// The object a piece of work is about (the first slot, for a group).
pub open spec fn work_object(t: TaggedWork) -> u64 {
    match t.work {
        Work::MarkObject(o) => o,
        Work::LoadTIB(o) => o,
        Work::ScanObject { o, .. } => o,
        Work::ScanRefarray(o) => o,
        Work::Edges { start, .. } => start,
    }
}

/// Work `t` marks an object that `m` has unmarked.
pub open spec fn newly_marks(m: Map<u64, u64>, t: TaggedWork) -> bool {
    t.work is MarkObject && !is_marked_in(m, work_object(t), 1)
}

/// Memory after doing work `t` in `m`: marking marks.
pub open spec fn work_mem(m: Map<u64, u64>, t: TaggedWork) -> Map<u64, u64> {
    match t.work {
        Work::MarkObject(o) => if is_marked_in(m, o, 1) {
            m
        } else {
            mark_word(m, o)
        },
        _ => m,
    }
}

/// Work `t` can be done in memory `m`: it is for a thread of the analysis,
/// and what it reads is there and lies in the address space.
pub open spec fn work_ready(model: &BidirectionalObjectModel<true>, m: Map<u64, u64>, t: TaggedWork, n: usize, b: u64) -> bool {
    &&& worker_ok(t, n)
    &&& match t.work {
        Work::MarkObject(o) => model.sizes_spec().contains_key(o) && (!is_marked_in(m, o, 1) ==> mark_ready(
            model,
            m,
            o,
            b,
        )),
        Work::LoadTIB(_) => true,
        Work::ScanObject { tib_ptr, o } => model.tibs().contains_key(tib_ptr) && o % 8 == 0 && o + 16 + 8
            * model.tibs()[tib_ptr].num_refs + b <= u64::MAX,
        Work::ScanRefarray(o) => o % 8 == 0 && o + 24 + 8 * word_at(m, o.wrapping_add(16)) + b <= u64::MAX,
        Work::Edges { start, count } => start % 8 == 0 && start + 8 * count + b <= u64::MAX,
    }
}

impl Analysis {
    /// The thread on whose behalf the slots of work `t` are loaded, and the
    /// thread that loads them.
    pub open spec fn work_loader(&self, t: TaggedWork) -> (usize, usize) {
        match t.work {
            Work::MarkObject(o) => (self.owner(o) as usize, self.owner(o) as usize),
            Work::ScanObject { tib_ptr, .. } => (self.owner(tib_ptr) as usize, self.owner(tib_ptr) as usize),
            Work::ScanRefarray(o) => (self.owner(o.wrapping_add(16)) as usize, self.owner(o.wrapping_add(16)) as usize),
            Work::Edges { .. } => (creator_id(t), worker_id(t)),
            Work::LoadTIB(_) => (0, 0),
        }
    }

    /// The slots that doing work `t` in memory `m` loads.
    pub open spec fn work_loads(&self, model: &BidirectionalObjectModel<true>, m: Map<u64, u64>, t: TaggedWork) -> Seq<u64> {
        match t.work {
            Work::MarkObject(o) => if is_marked_in(m, o, 1) {
                Seq::empty()
            } else {
                self.mark_loads(mark_word(m, o), o)
            },
            Work::LoadTIB(_) => Seq::empty(),
            Work::ScanObject { tib_ptr, o } => self.sent_loads(
                self.owner(tib_ptr) as usize,
                o.wrapping_add(16),
                model.tibs()[tib_ptr].num_refs,
            ),
            Work::ScanRefarray(o) => self.sent_loads(
                self.owner(o.wrapping_add(16)) as usize,
                o.wrapping_add(24),
                word_at(m, o.wrapping_add(16)),
            ),
            Work::Edges { start, count } => self.owned_slots(start, count, worker_id(t)),
        }
    }

    /// The work that doing work `t` in memory `m` creates.
    pub open spec fn work_works(&self, model: &BidirectionalObjectModel<true>, m: Map<u64, u64>, t: TaggedWork) -> Seq<
        TaggedWork,
    > {
        let m2 = work_mem(m, t);
        let loader = self.work_loader(t).1;
        match t.work {
            Work::MarkObject(o) => if is_marked_in(m, o, 1) {
                Seq::empty()
            } else {
                self.mark_works(m2, o)
            },
            Work::LoadTIB(o) => seq![
                TaggedWork {
                    creator: Worker::Numbered(self.owner(o.wrapping_add(8)) as usize),
                    worker: Worker::Numbered(self.owner(word_at(m, o.wrapping_add(8))) as usize),
                    work: Work::ScanObject { tib_ptr: word_at(m, o.wrapping_add(8)), o },
                },
            ],
            Work::ScanObject { tib_ptr, o } => self.edge_works(loader, self.work_loads(model, m, t), m) + self.sent_works(
                loader,
                o.wrapping_add(16),
                model.tibs()[tib_ptr].num_refs,
            ),
            Work::ScanRefarray(o) => self.edge_works(loader, self.work_loads(model, m, t), m) + self.sent_works(
                loader,
                o.wrapping_add(24),
                word_at(m, o.wrapping_add(16)),
            ),
            Work::Edges { .. } => self.edge_works(loader, self.work_loads(model, m, t), m),
        }
    }

    /// Reads the TIB pointer of `o` and has its owner read the TIB.
    fn do_load_tib(&mut self, o: u64, mem: &TargetMemory)
        requires
            old(self).wf(),
        ensures
            final(self).wf(),
            final(self).same_params(old(self)),
            final(self).records(
                old(self),
                seq![
                    TaggedWork {
                        creator: Worker::Numbered(old(self).owner(o.wrapping_add(8)) as usize),
                        worker: Worker::Numbered(old(self).owner(word_at(mem@, o.wrapping_add(8))) as usize),
                        work: Work::ScanObject { tib_ptr: word_at(mem@, o.wrapping_add(8)), o },
                    },
                ],
            ),
            final(self).stats.slot_counts == old(self).stats.slot_counts,
            final(self).stats.object_counts == old(self).stats.object_counts,
    {
        let tib_slot = o.wrapping_add(8);
        let tib_slot_owner = self.get_owner_thread(tib_slot);
        let tib_ptr = mem.load(tib_slot);
        let tib_ptr_owner = self.get_owner_thread(tib_ptr);
        self.create_tagged(tib_slot_owner, tib_ptr_owner, Work::ScanObject { tib_ptr, o });
    }

    /// The owner of the TIB sends the slots that the TIB lists.
    fn do_scan_object(&mut self, tib_ptr: u64, o: u64, model: &BidirectionalObjectModel<true>, mem: &TargetMemory)
        requires
            old(self).wf(),
            model.tibs().contains_key(tib_ptr),
            o % 8 == 0,
            o + 16 + 8 * model.tibs()[tib_ptr].num_refs + old(self).next_stride_delta <= u64::MAX,
        ensures
            ({
                let s = old(self).owner(tib_ptr) as usize;
                let c = model.tibs()[tib_ptr].num_refs;
                &&& final(self).wf()
                &&& final(self).same_params(old(self))
                &&& final(self).records(
                    old(self),
                    old(self).edge_works(s, old(self).sent_loads(s, o.wrapping_add(16), c), mem@) + old(
                        self,
                    ).sent_works(s, o.wrapping_add(16), c),
                )
                &&& final(self).stats.slot_counts == old(self).loads_after(
                    old(self).stats.slot_counts,
                    s,
                    s,
                    old(self).sent_loads(s, o.wrapping_add(16), c),
                    mem@,
                )
                &&& final(self).stats.object_counts == old(self).stats.object_counts
            }),
    {
        let tib_owner = self.get_owner_thread(tib_ptr);
        let num_refs = model.tib_num_refs(tib_ptr);
        self.send_edges(tib_owner, o.wrapping_add(16), num_refs, mem);
    }

    /// The owner of the length of array `o` sends its elements.
    fn do_scan_refarray(&mut self, o: u64, mem: &TargetMemory)
        requires
            old(self).wf(),
            o % 8 == 0,
            o + 24 + 8 * word_at(mem@, o.wrapping_add(16)) + old(self).next_stride_delta <= u64::MAX,
        ensures
            ({
                let s = old(self).owner(o.wrapping_add(16)) as usize;
                let len = word_at(mem@, o.wrapping_add(16));
                &&& final(self).wf()
                &&& final(self).same_params(old(self))
                &&& final(self).records(
                    old(self),
                    old(self).edge_works(s, old(self).sent_loads(s, o.wrapping_add(24), len), mem@) + old(
                        self,
                    ).sent_works(s, o.wrapping_add(24), len),
                )
                &&& final(self).stats.slot_counts == old(self).loads_after(
                    old(self).stats.slot_counts,
                    s,
                    s,
                    old(self).sent_loads(s, o.wrapping_add(24), len),
                    mem@,
                )
                &&& final(self).stats.object_counts == old(self).stats.object_counts
            }),
    {
        let array_length_ptr = o.wrapping_add(16);
        let array_length_owner = self.get_owner_thread(array_length_ptr);
        let array_length = mem.load(array_length_ptr);
        self.send_edges(array_length_owner, o.wrapping_add(24), array_length, mem);
    }

    /// Does one piece of work.
    pub(crate) fn do_work(&mut self, work: TaggedWork, model: &BidirectionalObjectModel<true>, mem: &mut TargetMemory)
        requires
            old(self).wf(),
            work_ready(model, old(mem)@, work, old(self).num_threads, old(self).next_stride_delta),
        ensures
            final(self).wf(),
            final(self).same_params(old(self)),
            final(mem)@ == work_mem(old(mem)@, work),
            final(self).records(old(self), old(self).work_works(model, old(mem)@, work)),
            final(self).stats.slot_counts == old(self).loads_after(
                old(self).stats.slot_counts,
                old(self).work_loader(work).0,
                old(self).work_loader(work).1,
                old(self).work_loads(model, old(mem)@, work),
                work_mem(old(mem)@, work),
            ),
            newly_marks(old(mem)@, work) ==> final(self).stats.object_counts == mark_counts(
                old(self).stats.object_counts,
                model.sizes_spec()[work_object(work)],
                space_code(work_object(work)) == 3,
                model.objarray(final(mem)@, work_object(work)),
                final(mem)@,
                expand_chunks(model.scan_chunks(final(mem)@, work_object(work))),
            ),
            !newly_marks(old(mem)@, work) ==> final(self).stats.object_counts == old(self).stats.object_counts,
    {
        let creator = match work.creator {
            Worker::Numbered(x) => x,
            Worker::Environment => usize::MAX,
        };
        let worker = match work.worker {
            Worker::Numbered(y) => y,
            Worker::Environment => 0,
        };
        proof {
            reveal_with_fuel(Analysis::loads_after, 1);
        }
        match work.work {
            Work::MarkObject(o) => {
                self.do_mark_object(o, model, mem);
                proof {
                    if is_marked_in(old(mem)@, o, 1) {
                        assert(old(self).loads_after(
                            old(self).stats.slot_counts,
                            old(self).work_loader(work).0,
                            old(self).work_loader(work).1,
                            Seq::empty(),
                            old(mem)@,
                        ) == old(self).stats.slot_counts);
                    }
                }
            },
            Work::LoadTIB(o) => {
                self.do_load_tib(o, mem);
            },
            Work::ScanObject { tib_ptr, o } => {
                self.do_scan_object(tib_ptr, o, model, mem);
            },
            Work::ScanRefarray(o) => {
                self.do_scan_refarray(o, mem);
            },
            Work::Edges { start, count } => {
                self.do_edges(creator, worker, start, count, mem);
            },
        }
    }
}

} // verus!
