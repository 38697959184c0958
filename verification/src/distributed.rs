//! The distributed node-objref closure.  Every object belongs to one of
//! eight threads, by bits of its address.  A thread scans the objects it
//! owns: it marks and queues the children it owns, and sends the others to
//! their owners' inboxes; it marks and queues what its inbox brings.  Here
//! the threads take turns, in rounds, until every queue and every inbox is
//! empty.
use vstd::prelude::*;
use std::collections::VecDeque;
use crate::mark::{is_marked_in, trace_object};
use crate::object_model::ObjectModel;
use crate::queue_trace::{
    lemma_closure_exact, lemma_points_to_slot_value, lemma_slot_value_points_to, lemma_slot_values_stable,
    slot_values, slot_words,
};
use crate::target_memory::{word_at, TargetMemory};
use crate::header::{with_byte, MARK_BYTE_OFFSET};
use crate::trace::{
    is_slot_of, is_trace_path, lemma_mark_byte_of_marked, lemma_marks_only_extend, lemma_marks_only_widen,
    lemma_path_extend, lemma_trace_root, marks_only, points_to, reachable_objects, trace_reachable, traceable,
    TracingStats,
};

verus! {

/// Threads of the distributed closure.
pub const DIST_NUM_THREADS: usize = 8;

/// Objects change owner every `2^DIST_OWNER_SHIFT` bytes: cache lines
/// spread over the threads.
pub const DIST_OWNER_SHIFT: u64 = 6;

/// The thread that owns object `o`.
pub open spec fn dist_owner(o: u64) -> int {
    ((o & 0x1c0u64) >> 6u64) as int
}

pub proof fn lemma_dist_owner_range(o: u64)
    ensures
        0 <= dist_owner(o) < DIST_NUM_THREADS,
{
    assert((o & 0x1c0u64) >> 6u64 < 8u64) by (bit_vector);
}

/// The thread that owns object `o`: the three address bits above the
/// cache-line offset.
pub fn get_owner_thread(o: u64) -> (r: usize)
    ensures
        r as int == dist_owner(o),
        r < DIST_NUM_THREADS,
{
    let mask: u64 = ((DIST_NUM_THREADS as u64) - 1) << DIST_OWNER_SHIFT;
    assert(mask == 0x1c0u64) by (bit_vector)
        requires
            mask == 7u64 << 6u64,
    ;
    proof {
        lemma_dist_owner_range(o);
    }
    ((o & mask) >> DIST_OWNER_SHIFT) as usize
}

/// The objects of the model that carry mark `sense` in `mem`.
pub open spec fn marked_objects_in<O: ObjectModel>(model: &O, mem: Map<u64, u64>, sense: u8) -> Set<u64> {
    Set::new(|o: u64| model.objects_spec().to_set().contains(o) && is_marked_in(mem, o, sense))
}

/// What each of a vector of queues holds.
pub open spec fn queue_views(qs: Seq<VecDeque<u64>>) -> Seq<Seq<u64>> {
    Seq::new(qs.len(), |i: int| qs[i]@)
}

/// How many items the queues hold together.
pub open spec fn total_len(s: Seq<Seq<u64>>) -> nat
    decreases s.len(),
{
    if s.len() == 0 {
        0
    } else {
        total_len(s.drop_last()) + s.last().len()
    }
}

proof fn lemma_total_len_update(s: Seq<Seq<u64>>, i: int, q: Seq<u64>)
    requires
        0 <= i < s.len(),
    ensures
        total_len(s.update(i, q)) == total_len(s) - s[i].len() + q.len(),
    decreases s.len(),
{
    if i < s.len() - 1 {
        lemma_total_len_update(s.drop_last(), i, q);
        assert(s.update(i, q).drop_last() =~= s.drop_last().update(i, q));
    } else {
        assert(s.update(i, q).drop_last() =~= s.drop_last());
    }
}

proof fn lemma_total_len_zero(s: Seq<Seq<u64>>)
    requires
        total_len(s) == 0,
    ensures
        forall|i: int| 0 <= i < s.len() ==> #[trigger] s[i].len() == 0,
    decreases s.len(),
{
    if s.len() > 0 {
        lemma_total_len_zero(s.drop_last());
        assert forall|i: int| 0 <= i < s.len() implies #[trigger] s[i].len() == 0 by {
            if i < s.len() - 1 {
                assert(s.drop_last()[i] == s[i]);
            }
        }
    }
}

/// The progress of the distributed closure with mark `sense` over the heap
/// restored in `mem0`: `qs` are the threads' scan queues and `ins` their
/// inboxes; `scanned` are the objects scanned; `busy` is the object being
/// scanned, if any.  Every marked object is scanned, queued with its owner,
/// or being scanned; the children of a scanned object are marked or in
/// their owner's inbox.
pub open spec fn dist_state<O: ObjectModel>(
    model: &O,
    mem0: Map<u64, u64>,
    mem: Map<u64, u64>,
    sense: u8,
    qs: Seq<Seq<u64>>,
    ins: Seq<Seq<u64>>,
    scanned: Set<u64>,
    busy: Option<u64>,
) -> bool {
    let objs = model.objects_spec().to_set();
    let roots = model.roots_spec();
    let marked = marked_objects_in(model, mem, sense);
    &&& traceable(model, mem0, sense)
    &&& marks_only(mem0, mem, marked, sense)
    &&& forall|x: u64| #[trigger] marked.contains(x) ==> trace_reachable(model, mem0, roots, x)
    &&& qs.len() == DIST_NUM_THREADS
    &&& ins.len() == DIST_NUM_THREADS
    &&& forall|t: int, i: int|
        0 <= t < DIST_NUM_THREADS && 0 <= i < qs[t].len() ==> marked.contains(#[trigger] qs[t][i]) && dist_owner(
            qs[t][i],
        ) == t && !scanned.contains(qs[t][i]) && busy != Some(qs[t][i])
    &&& forall|t: int| 0 <= t < DIST_NUM_THREADS ==> #[trigger] qs[t].no_duplicates()
    &&& forall|t: int, i: int|
        0 <= t < DIST_NUM_THREADS && 0 <= i < ins[t].len() ==> objs.contains(#[trigger] ins[t][i])
            && trace_reachable(model, mem0, roots, ins[t][i]) && dist_owner(ins[t][i]) == t
    &&& scanned.subset_of(marked)
    &&& forall|x: u64|
        #[trigger] marked.contains(x) ==> scanned.contains(x) || busy == Some(x) || qs[dist_owner(x)].contains(x)
    &&& forall|x: u64, c: u64|
        scanned.contains(x) && #[trigger] points_to(model, mem0, x, c) ==> marked.contains(c)
            || ins[dist_owner(c)].contains(c)
    &&& forall|r: int|
        0 <= r < roots.len() && #[trigger] roots[r] != 0 ==> marked.contains(roots[r]) || ins[dist_owner(
            roots[r],
        )].contains(roots[r])
    &&& busy matches Some(x) ==> marked.contains(x) && !scanned.contains(x)
}

/// Takes the front item off queue `t`.
fn take_front(qs: &mut Vec<VecDeque<u64>>, t: usize) -> (r: Option<u64>)
    requires
        t < old(qs)@.len(),
    ensures
        final(qs)@.len() == old(qs)@.len(),
        forall|u: int| 0 <= u < old(qs)@.len() && u != t ==> #[trigger] final(qs)@[u]@ == old(qs)@[u]@,
        queue_views(final(qs)@) == queue_views(old(qs)@).update(t as int, final(qs)@[t as int]@),
        match r {
            Some(x) => {
                &&& old(qs)@[t as int]@.len() > 0
                &&& x == old(qs)@[t as int]@[0]
                &&& final(qs)@[t as int]@ == old(qs)@[t as int]@.subrange(1, old(qs)@[t as int]@.len() as int)
            },
            None => {
                &&& old(qs)@[t as int]@.len() == 0
                &&& final(qs)@[t as int]@ == old(qs)@[t as int]@
            },
        },
{
    let mut q: VecDeque<u64> = VecDeque::new();
    std::mem::swap(&mut q, &mut qs[t]);
    let r = q.pop_front();
    std::mem::swap(&mut q, &mut qs[t]);
    assert(queue_views(qs@) =~= queue_views(old(qs)@).update(t as int, qs@[t as int]@));
    r
}

/// Puts `v` at the back of queue `t`.
fn push_back_to(qs: &mut Vec<VecDeque<u64>>, t: usize, v: u64)
    requires
        t < old(qs)@.len(),
    ensures
        final(qs)@.len() == old(qs)@.len(),
        queue_views(final(qs)@) == queue_views(old(qs)@).update(t as int, old(qs)@[t as int]@.push(v)),
{
    let mut q: VecDeque<u64> = VecDeque::new();
    std::mem::swap(&mut q, &mut qs[t]);
    q.push_back(v);
    std::mem::swap(&mut q, &mut qs[t]);
    assert(queue_views(qs@) =~= queue_views(old(qs)@).update(t as int, old(qs)@[t as int]@.push(v)));
}

/// Whether every queue is empty.
fn all_empty(qs: &Vec<VecDeque<u64>>) -> (r: bool)
    ensures
        r <==> total_len(queue_views(qs@)) == 0,
{
    let ghost v = queue_views(qs@);
    let mut i: usize = 0;
    while i < qs.len()
        invariant
            v == queue_views(qs@),
            i <= qs@.len(),
            total_len(v.subrange(0, i as int)) == 0,
        decreases qs@.len() - i,
    {
        proof {
            assert(v.subrange(0, i + 1).drop_last() =~= v.subrange(0, i as int));
        }
        if qs[i].len() != 0 {
            proof {
                lemma_total_len_prefix(v, i + 1);
                assert(v.subrange(0, i + 1).last() == v[i as int]);
            }
            return false;
        }
        i += 1;
    }
    assert(v.subrange(0, v.len() as int) =~= v);
    true
}

proof fn lemma_total_len_prefix(s: Seq<Seq<u64>>, i: int)
    requires
        0 <= i <= s.len(),
    ensures
        total_len(s.subrange(0, i)) <= total_len(s),
    decreases s.len() - i,
{
    if i < s.len() {
        lemma_total_len_prefix(s, i + 1);
        assert(s.subrange(0, i + 1).drop_last() =~= s.subrange(0, i));
    } else {
        assert(s.subrange(0, i) =~= s);
    }
}

/// Marking an unmarked object adds it, and only it, to the marked objects.
pub(crate) proof fn lemma_mark_one<O: ObjectModel>(model: &O, mem0: Map<u64, u64>, mem1: Map<u64, u64>, sense: u8, w: u64)
    requires
        marks_only(mem0, mem1, marked_objects_in(model, mem1, sense), sense),
        model.objects_spec().to_set().contains(w),
        !is_marked_in(mem1, w, sense),
    ensures
        ({
            let mem2 = mem1.insert(w, with_byte(word_at(mem1, w), sense, MARK_BYTE_OFFSET as int));
            &&& marked_objects_in(model, mem2, sense) == marked_objects_in(model, mem1, sense).insert(w)
            &&& marks_only(mem0, mem2, marked_objects_in(model, mem2, sense), sense)
            &&& word_at(mem1, w) == word_at(mem0, w)
        }),
{
    let marked = marked_objects_in(model, mem1, sense);
    let mem2 = mem1.insert(w, with_byte(word_at(mem1, w), sense, MARK_BYTE_OFFSET as int));
    lemma_marks_only_extend(mem0, mem1, marked, w, sense);
    lemma_mark_byte_of_marked(word_at(mem1, w), sense);
    assert(marked_objects_in(model, mem2, sense) =~= marked.insert(w));
}

/// Queueing an object that was just marked, with its owner, keeps the
/// progress of the closure.
proof fn lemma_dist_mark_local<O: ObjectModel>(
    model: &O,
    mem0: Map<u64, u64>,
    mem1: Map<u64, u64>,
    sense: u8,
    qs: Seq<Seq<u64>>,
    ins: Seq<Seq<u64>>,
    scanned: Set<u64>,
    busy: Option<u64>,
    w: u64,
)
    requires
        dist_state(model, mem0, mem1, sense, qs, ins, scanned, busy),
        model.objects_spec().to_set().contains(w),
        trace_reachable(model, mem0, model.roots_spec(), w),
        !is_marked_in(mem1, w, sense),
    ensures
        ({
            let mem2 = mem1.insert(w, with_byte(word_at(mem1, w), sense, MARK_BYTE_OFFSET as int));
            let t = dist_owner(w);
            &&& dist_state(model, mem0, mem2, sense, qs.update(t, qs[t].push(w)), ins, scanned, busy)
            &&& marked_objects_in(model, mem2, sense) == marked_objects_in(model, mem1, sense).insert(w)
        }),
{
    let mem2 = mem1.insert(w, with_byte(word_at(mem1, w), sense, MARK_BYTE_OFFSET as int));
    let t = dist_owner(w);
    lemma_dist_owner_range(w);
    lemma_mark_one(model, mem0, mem1, sense, w);
    let marked = marked_objects_in(model, mem1, sense);
    let marked2 = marked.insert(w);
    let qs2 = qs.update(t, qs[t].push(w));
    assert(!marked.contains(w));
    assert forall|u: int, i: int| 0 <= u < DIST_NUM_THREADS && 0 <= i < qs2[u].len() implies marked2.contains(
        #[trigger] qs2[u][i],
    ) && dist_owner(qs2[u][i]) == u && !scanned.contains(qs2[u][i]) && busy != Some(qs2[u][i]) by {
        if u == t && i == qs[t].len() {
            assert(qs2[u][i] == w);
        } else {
            assert(qs2[u][i] == qs[u][i]);
        }
    }
    assert forall|u: int| 0 <= u < DIST_NUM_THREADS implies #[trigger] qs2[u].no_duplicates() by {
        if u == t {
            assert forall|a: int, b: int| 0 <= a < qs2[u].len() && 0 <= b < qs2[u].len() && a != b implies qs2[u][a]
                != qs2[u][b] by {
                if a == qs[t].len() as int {
                    assert(marked.contains(qs[t][b]));
                } else if b == qs[t].len() as int {
                    assert(marked.contains(qs[t][a]));
                } else {
                    assert(qs[t].no_duplicates());
                }
            }
        } else {
            assert(qs2[u] == qs[u]);
        }
    }
    assert forall|x: u64| #[trigger] marked2.contains(x) implies scanned.contains(x) || busy == Some(x)
        || qs2[dist_owner(x)].contains(x) by {
        lemma_dist_owner_range(x);
        if x == w {
            assert(qs2[t][qs[t].len() as int] == w);
        } else if !scanned.contains(x) && busy != Some(x) {
            let o = dist_owner(x);
            assert(qs[o].contains(x));
            let i = choose|i: int| 0 <= i < qs[o].len() && qs[o][i] == x;
            assert(qs2[o][i] == x);
        }
    }
    assert(marked_objects_in(model, mem2, sense) == marked2);
}

/// Sending an object of the heap to its owner's inbox keeps the progress of
/// the closure.
proof fn lemma_dist_send<O: ObjectModel>(
    model: &O,
    mem0: Map<u64, u64>,
    mem: Map<u64, u64>,
    sense: u8,
    qs: Seq<Seq<u64>>,
    ins: Seq<Seq<u64>>,
    scanned: Set<u64>,
    busy: Option<u64>,
    w: u64,
)
    requires
        dist_state(model, mem0, mem, sense, qs, ins, scanned, busy),
        model.objects_spec().to_set().contains(w),
        trace_reachable(model, mem0, model.roots_spec(), w),
    ensures
        dist_state(
            model,
            mem0,
            mem,
            sense,
            qs,
            ins.update(dist_owner(w), ins[dist_owner(w)].push(w)),
            scanned,
            busy,
        ),
        ins.update(dist_owner(w), ins[dist_owner(w)].push(w))[dist_owner(w)].contains(w),
        forall|c: u64|
            #[trigger] ins[dist_owner(c)].contains(c) ==> ins.update(dist_owner(w), ins[dist_owner(w)].push(w))[dist_owner(
                c,
            )].contains(c),
{
    let o = dist_owner(w);
    lemma_dist_owner_range(w);
    let ins2 = ins.update(o, ins[o].push(w));
    assert(ins2[o][ins[o].len() as int] == w);
    assert forall|u: int, i: int| 0 <= u < DIST_NUM_THREADS && 0 <= i < ins2[u].len() implies model.objects_spec().to_set().contains(
        #[trigger] ins2[u][i],
    ) && trace_reachable(model, mem0, model.roots_spec(), ins2[u][i]) && dist_owner(ins2[u][i]) == u by {
        if !(u == o && i == ins[o].len()) {
            assert(ins2[u][i] == ins[u][i]);
        }
    }
    assert forall|c: u64| #[trigger] ins[dist_owner(c)].contains(c) implies ins2[dist_owner(c)].contains(c) by {
        lemma_dist_owner_range(c);
        let i = choose|i: int| 0 <= i < ins[dist_owner(c)].len() && ins[dist_owner(c)][i] == c;
        assert(ins2[dist_owner(c)][i] == c);
    }
}

/// Once every child of the object being scanned is marked or sent, it is scanned.
proof fn lemma_dist_finish_scan<O: ObjectModel>(
    model: &O,
    mem0: Map<u64, u64>,
    mem: Map<u64, u64>,
    sense: u8,
    qs: Seq<Seq<u64>>,
    ins: Seq<Seq<u64>>,
    scanned: Set<u64>,
    x: u64,
)
    requires
        dist_state(model, mem0, mem, sense, qs, ins, scanned, Some(x)),
        forall|c: u64|
            #[trigger] points_to(model, mem0, x, c) ==> marked_objects_in(model, mem, sense).contains(c)
                || ins[dist_owner(c)].contains(c),
    ensures
        dist_state(model, mem0, mem, sense, qs, ins, scanned.insert(x), None),
{
}

/// Taking the front object off a scan queue to scan it keeps the progress.
proof fn lemma_dist_start_scan<O: ObjectModel>(
    model: &O,
    mem0: Map<u64, u64>,
    mem: Map<u64, u64>,
    sense: u8,
    qs: Seq<Seq<u64>>,
    ins: Seq<Seq<u64>>,
    scanned: Set<u64>,
    t: int,
)
    requires
        dist_state(model, mem0, mem, sense, qs, ins, scanned, None),
        0 <= t < DIST_NUM_THREADS,
        qs[t].len() > 0,
    ensures
        dist_state(
            model,
            mem0,
            mem,
            sense,
            qs.update(t, qs[t].subrange(1, qs[t].len() as int)),
            ins,
            scanned,
            Some(qs[t][0]),
        ),
        dist_owner(qs[t][0]) == t,
{
    let x = qs[t][0];
    let qs2 = qs.update(t, qs[t].subrange(1, qs[t].len() as int));
    let marked = marked_objects_in(model, mem, sense);
    assert(marked.contains(x) && dist_owner(x) == t);
    assert forall|u: int, i: int| 0 <= u < DIST_NUM_THREADS && 0 <= i < qs2[u].len() implies marked.contains(
        #[trigger] qs2[u][i],
    ) && dist_owner(qs2[u][i]) == u && !scanned.contains(qs2[u][i]) && Some(x) != Some(qs2[u][i]) by {
        if u == t {
            assert(qs2[u][i] == qs[t][i + 1]);
            assert(qs[t].no_duplicates());
        } else {
            assert(qs2[u] == qs[u]);
        }
    }
    assert forall|u: int| 0 <= u < DIST_NUM_THREADS implies #[trigger] qs2[u].no_duplicates() by {
        if u == t {
            assert(qs[t].no_duplicates());
            assert forall|a: int, b: int| 0 <= a < qs2[u].len() && 0 <= b < qs2[u].len() && a != b implies qs2[u][a]
                != qs2[u][b] by {
                assert(qs2[u][a] == qs[t][a + 1] && qs2[u][b] == qs[t][b + 1]);
            }
        }
    }
    assert forall|y: u64| #[trigger] marked.contains(y) implies scanned.contains(y) || Some(x) == Some(y)
        || qs2[dist_owner(y)].contains(y) by {
        lemma_dist_owner_range(y);
        if !scanned.contains(y) && y != x {
            let o = dist_owner(y);
            let i = choose|i: int| 0 <= i < qs[o].len() && qs[o][i] == y;
            if o == t {
                assert(i != 0);
                assert(qs2[o][i - 1] == y);
            } else {
                assert(qs2[o][i] == y);
            }
        }
    }
}

/// Taking the front object off an inbox and marking it (queueing it when
/// this marks it) keeps the progress.
proof fn lemma_dist_receive<O: ObjectModel>(
    model: &O,
    mem0: Map<u64, u64>,
    mem1: Map<u64, u64>,
    sense: u8,
    qs: Seq<Seq<u64>>,
    ins: Seq<Seq<u64>>,
    scanned: Set<u64>,
    t: int,
)
    requires
        dist_state(model, mem0, mem1, sense, qs, ins, scanned, None),
        0 <= t < DIST_NUM_THREADS,
        ins[t].len() > 0,
    ensures
        ({
            let c = ins[t][0];
            let ins2 = ins.update(t, ins[t].subrange(1, ins[t].len() as int));
            let mem2 = mem1.insert(c, with_byte(word_at(mem1, c), sense, MARK_BYTE_OFFSET as int));
            &&& dist_owner(c) == t
            &&& model.objects_spec().to_set().contains(c)
            &&& is_marked_in(mem1, c, sense) ==> dist_state(model, mem0, mem1, sense, qs, ins2, scanned, None)
            &&& !is_marked_in(mem1, c, sense) ==> dist_state(
                model,
                mem0,
                mem2,
                sense,
                qs.update(t, qs[t].push(c)),
                ins2,
                scanned,
                None,
            ) && marked_objects_in(model, mem2, sense) == marked_objects_in(model, mem1, sense).insert(c)
        }),
{
    let c = ins[t][0];
    let ins2 = ins.update(t, ins[t].subrange(1, ins[t].len() as int));
    let mem2 = mem1.insert(c, with_byte(word_at(mem1, c), sense, MARK_BYTE_OFFSET as int));
    let roots = model.roots_spec();
    assert(model.objects_spec().to_set().contains(c) && trace_reachable(model, mem0, roots, c) && dist_owner(c) == t);
    // Dropping `c` from the inbox.
    assert forall|u: int, i: int| 0 <= u < DIST_NUM_THREADS && 0 <= i < ins2[u].len() implies model.objects_spec().to_set().contains(
        #[trigger] ins2[u][i],
    ) && trace_reachable(model, mem0, roots, ins2[u][i]) && dist_owner(ins2[u][i]) == u by {
        if u == t {
            assert(ins2[u][i] == ins[t][i + 1]);
        } else {
            assert(ins2[u] == ins[u]);
        }
    }
    assert forall|d: u64| #[trigger] ins[dist_owner(d)].contains(d) && d != c implies ins2[dist_owner(d)].contains(d) by {
        lemma_dist_owner_range(d);
        let o = dist_owner(d);
        let i = choose|i: int| 0 <= i < ins[o].len() && ins[o][i] == d;
        if o == t {
            assert(i != 0);
            assert(ins2[o][i - 1] == d);
        } else {
            assert(ins2[o][i] == d);
        }
    }
    if is_marked_in(mem1, c, sense) {
        let marked = marked_objects_in(model, mem1, sense);
        assert(marked.contains(c));
    } else {
        lemma_dist_mark_local(model, mem0, mem1, sense, qs, ins, scanned, None, c);
        let marked2 = marked_objects_in(model, mem2, sense);
        assert(marked2.contains(c));
    }
}

/// Scans object `x`, which thread `t` owns and has taken off its queue:
/// marks and queues each child that `t` owns, and sends each other child
/// to its owner.
#[verifier::rlimit(40)]
fn scan_owned<O: ObjectModel>(
    model: &O,
    mem: &mut TargetMemory,
    qs: &mut Vec<VecDeque<u64>>,
    ins: &mut Vec<VecDeque<u64>>,
    x: u64,
    t: usize,
    sense: u8,
    stats: &mut TracingStats,
    Ghost(mem0): Ghost<Map<u64, u64>>,
    Ghost(scanned): Ghost<Set<u64>>,
)
    requires
        dist_state(model, mem0, old(mem)@, sense, queue_views(old(qs)@), queue_views(old(ins)@), scanned, Some(x)),
        dist_owner(x) == t,
        old(qs)@.len() == DIST_NUM_THREADS,
        old(ins)@.len() == DIST_NUM_THREADS,
        old(stats).marked_objects == marked_objects_in(model, old(mem)@, sense).len(),
        model.objects_spec().to_set().finite(),
        model.objects_spec().to_set().len() <= u64::MAX,
    ensures
        dist_state(
            model,
            mem0,
            final(mem)@,
            sense,
            queue_views(final(qs)@),
            queue_views(final(ins)@),
            scanned.insert(x),
            None,
        ),
        final(qs)@.len() == DIST_NUM_THREADS,
        final(ins)@.len() == DIST_NUM_THREADS,
        final(stats).marked_objects == marked_objects_in(model, final(mem)@, sense).len(),
{
    let ghost objs = model.objects_spec().to_set();
    proof {
        let marked = marked_objects_in(model, mem@, sense);
        assert(marked.subset_of(objs));
        lemma_marks_only_widen(mem0, mem@, marked, objs, sense);
        lemma_slot_values_stable(model, mem0, mem@, x, sense);
    }
    let words = slot_words(model, mem, x);
    let mut j: usize = 0;
    while j < words.len()
        invariant
            dist_state(model, mem0, mem@, sense, queue_views(qs@), queue_views(ins@), scanned, Some(x)),
            objs == model.objects_spec().to_set(),
            objs.finite(),
            objs.len() <= u64::MAX,
            words@ == slot_values(model, mem0, x),
            dist_owner(x) == t,
            qs@.len() == DIST_NUM_THREADS,
            ins@.len() == DIST_NUM_THREADS,
            j <= words@.len(),
            forall|k: int|
                0 <= k < j && #[trigger] words@[k] != 0 ==> marked_objects_in(model, mem@, sense).contains(words@[k])
                    || queue_views(ins@)[dist_owner(words@[k])].contains(words@[k]),
            stats.marked_objects == marked_objects_in(model, mem@, sense).len(),
        decreases words@.len() - j,
    {
        let w = words[j];
        stats.slots = stats.slots.saturating_add(1);
        if w != 0 {
            stats.non_empty_slots = stats.non_empty_slots.saturating_add(1);
            proof {
                lemma_slot_value_points_to(model, mem0, x, j as int);
                let sl = choose|sl: u64| #[trigger] is_slot_of(model, mem0, x, sl) && word_at(mem0, sl) == w;
                assert(objs.contains(x));
                assert(objs.contains(w));
                let p = choose|p: Seq<u64>| #[trigger] is_trace_path(model, mem0, model.roots_spec(), p) && p.last() == x;
                lemma_path_extend(model, mem0, model.roots_spec(), p, w);
                assert(p.push(w).last() == w);
                lemma_dist_owner_range(w);
            }
            let owner = get_owner_thread(w);
            if owner == t {
                let ghost mem1 = mem@;
                let ghost marked1 = marked_objects_in(model, mem1, sense);
                if trace_object(mem, w, sense) {
                    proof {
                        lemma_dist_mark_local(
                            model,
                            mem0,
                            mem1,
                            sense,
                            queue_views(qs@),
                            queue_views(ins@),
                            scanned,
                            Some(x),
                            w,
                        );
                        assert(!marked1.contains(w));
                        assert(marked1.subset_of(objs));
                        vstd::set_lib::lemma_len_subset(marked1, objs);
                        vstd::set_lib::lemma_len_subset(marked1.insert(w), objs);
                    }
                    stats.marked_objects = stats.marked_objects + 1;
                    push_back_to(qs, t, w);
                } else {
                    proof {
                        assert(marked_objects_in(model, mem@, sense).contains(w));
                    }
                }
            } else {
                stats.sends = stats.sends.saturating_add(1);
                proof {
                    lemma_dist_send(
                        model,
                        mem0,
                        mem@,
                        sense,
                        queue_views(qs@),
                        queue_views(ins@),
                        scanned,
                        Some(x),
                        w,
                    );
                }
                push_back_to(ins, owner, w);
            }
        }
        j += 1;
    }
    proof {
        assert forall|c: u64| #[trigger] points_to(model, mem0, x, c) implies marked_objects_in(model, mem@, sense).contains(
            c,
        ) || queue_views(ins@)[dist_owner(c)].contains(c) by {
            lemma_points_to_slot_value(model, mem0, x, c);
            let k = choose|k: int| 0 <= k < words@.len() && words@[k] == c;
            assert(words@[k] != 0);
        }
        lemma_dist_finish_scan(model, mem0, mem@, sense, queue_views(qs@), queue_views(ins@), scanned, x);
    }
}

/// `n` empty queues.
fn empty_queues(n: usize) -> (r: Vec<VecDeque<u64>>)
    ensures
        r@.len() == n,
        forall|i: int| 0 <= i < n ==> #[trigger] queue_views(r@)[i].len() == 0,
{
    let mut r: Vec<VecDeque<u64>> = Vec::new();
    let mut i: usize = 0;
    while i < n
        invariant
            i <= n,
            r@.len() == i,
            forall|k: int| 0 <= k < i ==> #[trigger] r@[k]@.len() == 0,
        decreases n - i,
    {
        r.push(VecDeque::new());
        i += 1;
    }
    r
}

/// Marks every object reachable from the roots, with eight threads that
/// each scan the objects they own and send the others' objects to them;
/// returns how many objects were marked, the slots read, and how many
/// references went to another thread.
pub fn transitive_closure_distributed_node_objref<O: ObjectModel>(
    mark_sense: u8,
    model: &O,
    mem: &mut TargetMemory,
) -> (r: TracingStats)
    requires
        traceable(model, old(mem)@, mark_sense),
    ensures
        r.marked_objects == reachable_objects(model, old(mem)@, model.roots_spec()).len(),
        forall|o: u64|
            #[trigger] trace_reachable(model, old(mem)@, model.roots_spec(), o) <==> (model.objects_spec().contains(o)
                && is_marked_in(final(mem)@, o, mark_sense)),
        marks_only(old(mem)@, final(mem)@, reachable_objects(model, old(mem)@, model.roots_spec()), mark_sense),
{
    let ghost mem0 = mem@;
    let ghost objs = model.objects_spec().to_set();
    let ghost roots_s = model.roots_spec();
    let n_objects = model.objects().len();
    proof {
        vstd::seq_lib::seq_to_set_is_finite(model.objects_spec());
        model.objects_spec().lemma_cardinality_of_set();
        assert(marked_objects_in(model, mem0, mark_sense) =~= Set::<u64>::empty());
    }
    let mut qs = empty_queues(DIST_NUM_THREADS);
    let mut ins = empty_queues(DIST_NUM_THREADS);
    let mut stats = TracingStats::new();
    let roots = model.roots();
    let mut k: usize = 0;
    while k < roots.len()
        invariant
            roots@ == roots_s,
            roots_s == model.roots_spec(),
            objs == model.objects_spec().to_set(),
            traceable(model, mem0, mark_sense),
            mem@ == mem0,
            marked_objects_in(model, mem0, mark_sense) == Set::<u64>::empty(),
            k <= roots@.len(),
            qs@.len() == DIST_NUM_THREADS,
            ins@.len() == DIST_NUM_THREADS,
            forall|i: int| 0 <= i < DIST_NUM_THREADS ==> #[trigger] queue_views(qs@)[i].len() == 0,
            forall|u: int, i: int|
                0 <= u < DIST_NUM_THREADS && 0 <= i < queue_views(ins@)[u].len() ==> objs.contains(
                    #[trigger] queue_views(ins@)[u][i],
                ) && trace_reachable(model, mem0, roots_s, queue_views(ins@)[u][i]) && dist_owner(
                    queue_views(ins@)[u][i],
                ) == u,
            forall|r: int|
                0 <= r < k && #[trigger] roots_s[r] != 0 ==> queue_views(ins@)[dist_owner(roots_s[r])].contains(
                    roots_s[r],
                ),
            stats.marked_objects == 0,
        decreases roots@.len() - k,
    {
        let o = roots[k];
        stats.slots = stats.slots.saturating_add(1);
        if o != 0 {
            stats.non_empty_slots = stats.non_empty_slots.saturating_add(1);
            let owner = get_owner_thread(o);
            let ghost before = queue_views(ins@);
            push_back_to(&mut ins, owner, o);
            proof {
                lemma_trace_root(model, mem0, roots_s, k as int);
                assert(roots_s[k as int] == o);
                assert(queue_views(ins@)[owner as int][before[owner as int].len() as int] == o);
                assert forall|u: int, i: int|
                    0 <= u < DIST_NUM_THREADS && 0 <= i < queue_views(ins@)[u].len() implies objs.contains(
                    #[trigger] queue_views(ins@)[u][i],
                ) && trace_reachable(model, mem0, roots_s, queue_views(ins@)[u][i]) && dist_owner(
                    queue_views(ins@)[u][i],
                ) == u by {
                    if !(u == owner && i == before[u].len()) {
                        assert(queue_views(ins@)[u][i] == before[u][i]);
                    }
                }
                assert forall|r: int|
                    0 <= r < k + 1 && #[trigger] roots_s[r] != 0 implies queue_views(ins@)[dist_owner(
                    roots_s[r],
                )].contains(roots_s[r]) by {
                    if r < k {
                        lemma_dist_owner_range(roots_s[r]);
                        let d = dist_owner(roots_s[r]);
                        let i = choose|i: int| 0 <= i < before[d].len() && before[d][i] == roots_s[r];
                        assert(queue_views(ins@)[d][i] == roots_s[r]);
                    }
                }
            }
        }
        k += 1;
    }
    let ghost mut scanned: Set<u64> = Set::empty();
    proof {
        let marked = marked_objects_in(model, mem@, mark_sense);
        assert forall|t: int| 0 <= t < DIST_NUM_THREADS implies #[trigger] queue_views(qs@)[t].no_duplicates() by {
        }
        assert(dist_state(model, mem0, mem@, mark_sense, queue_views(qs@), queue_views(ins@), scanned, None));
    }
    loop
        invariant
            dist_state(model, mem0, mem@, mark_sense, queue_views(qs@), queue_views(ins@), scanned, None),
            qs@.len() == DIST_NUM_THREADS,
            ins@.len() == DIST_NUM_THREADS,
            objs == model.objects_spec().to_set(),
            objs.finite(),
            objs.len() <= n_objects,
            scanned.subset_of(objs),
            stats.marked_objects == marked_objects_in(model, mem@, mark_sense).len(),
        ensures
            dist_state(model, mem0, mem@, mark_sense, queue_views(qs@), queue_views(ins@), scanned, None),
            total_len(queue_views(qs@)) == 0,
            total_len(queue_views(ins@)) == 0,
            stats.marked_objects == marked_objects_in(model, mem@, mark_sense).len(),
        decreases objs.len() - scanned.len(), total_len(queue_views(ins@)),
    {
        let ghost scanned_start = scanned;
        let ghost qs_start = queue_views(qs@);
        let ghost ins_start = queue_views(ins@);
        proof {
            vstd::set_lib::lemma_len_subset(scanned, objs);
        }
        let mut t: usize = 0;
        while t < DIST_NUM_THREADS
            invariant
                dist_state(model, mem0, mem@, mark_sense, queue_views(qs@), queue_views(ins@), scanned, None),
                qs@.len() == DIST_NUM_THREADS,
                ins@.len() == DIST_NUM_THREADS,
                objs == model.objects_spec().to_set(),
                objs.finite(),
                objs.len() <= n_objects,
                stats.marked_objects == marked_objects_in(model, mem@, mark_sense).len(),
                t <= DIST_NUM_THREADS,
                scanned_start.subset_of(scanned),
                scanned.subset_of(objs),
                qs_start.len() == DIST_NUM_THREADS,
                ins_start.len() == DIST_NUM_THREADS,
                scanned.len() == scanned_start.len() ==> total_len(queue_views(ins@)) <= total_len(ins_start),
                scanned.len() == scanned_start.len() && total_len(queue_views(ins@)) == total_len(ins_start)
                    ==> queue_views(qs@) == qs_start && queue_views(ins@) == ins_start,
                scanned.len() == scanned_start.len() && total_len(queue_views(ins@)) == total_len(ins_start)
                    ==> forall|u: int| 0 <= u < t ==> #[trigger] qs_start[u].len() == 0 && ins_start[u].len() == 0,
            decreases DIST_NUM_THREADS - t,
        {
            // Scan every object on this thread's queue.
            let ghost scanned_turn = scanned;
            let ghost qs_turn = queue_views(qs@);
            let ghost ins_turn = queue_views(ins@);
            loop
                invariant
                    dist_state(model, mem0, mem@, mark_sense, queue_views(qs@), queue_views(ins@), scanned, None),
                    qs@.len() == DIST_NUM_THREADS,
                    ins@.len() == DIST_NUM_THREADS,
                    objs == model.objects_spec().to_set(),
                    objs.finite(),
                    objs.len() <= n_objects,
                    stats.marked_objects == marked_objects_in(model, mem@, mark_sense).len(),
                    t < DIST_NUM_THREADS,
                    scanned_turn.subset_of(scanned),
                    scanned.subset_of(objs),
                    scanned == scanned_turn ==> queue_views(qs@) == qs_turn && queue_views(ins@) == ins_turn,
                ensures
                    dist_state(model, mem0, mem@, mark_sense, queue_views(qs@), queue_views(ins@), scanned, None),
                    qs@.len() == DIST_NUM_THREADS,
                    ins@.len() == DIST_NUM_THREADS,
                    stats.marked_objects == marked_objects_in(model, mem@, mark_sense).len(),
                    scanned_turn.subset_of(scanned),
                    scanned.subset_of(objs),
                    scanned == scanned_turn ==> queue_views(qs@) == qs_turn && queue_views(ins@) == ins_turn
                        && qs_turn[t as int].len() == 0,
                decreases objs.len() - scanned.len(),
            {
                proof {
                    vstd::set_lib::lemma_len_subset(scanned, objs);
                }
                let ghost qv = queue_views(qs@);
                let next = take_front(&mut qs, t);
                match next {
                    Some(x) => {
                        proof {
                            lemma_dist_start_scan(
                                model,
                                mem0,
                                mem@,
                                mark_sense,
                                qv,
                                queue_views(ins@),
                                scanned,
                                t as int,
                            );
                        }
                        scan_owned(
                            model,
                            mem,
                            &mut qs,
                            &mut ins,
                            x,
                            t,
                            mark_sense,
                            &mut stats,
                            Ghost(mem0),
                            Ghost(scanned),
                        );
                        proof {
                            assert(!scanned.contains(x));
                            let old_len = scanned.len();
                            scanned = scanned.insert(x);
                            assert(scanned.len() == old_len + 1);
                            assert(scanned.subset_of(objs)) by {
                                assert(marked_objects_in(model, mem@, mark_sense).subset_of(objs));
                            }
                            vstd::set_lib::lemma_len_subset(scanned, objs);
                            assert(scanned.contains(x) && !scanned_turn.contains(x));
                        }
                    },
                    None => {
                        proof {
                            assert(queue_views(qs@) =~= qv);
                        }
                        break;
                    },
                }
            }
            // Take one object from the inbox.
            let ghost qs_mid = queue_views(qs@);
            let ghost ins_mid = queue_views(ins@);
            let ghost mem1 = mem@;
            let received = take_front(&mut ins, t);
            match received {
                Some(c) => {
                    proof {
                        lemma_dist_receive(model, mem0, mem1, mark_sense, qs_mid, ins_mid, scanned, t as int);
                        assert(queue_views(ins@) == ins_mid.update(t as int, ins_mid[t as int].subrange(1, ins_mid[t as int].len() as int)));
                        lemma_total_len_update(ins_mid, t as int, queue_views(ins@)[t as int]);
                    }
                    let ghost marked1 = marked_objects_in(model, mem1, mark_sense);
                    if trace_object(mem, c, mark_sense) {
                        proof {
                            assert(marked1.subset_of(objs));
                            vstd::set_lib::lemma_len_subset(marked1, objs);
                            vstd::set_lib::lemma_len_subset(marked1.insert(c), objs);
                        }
                        stats.marked_objects = stats.marked_objects + 1;
                        push_back_to(&mut qs, t, c);
                    }
                },
                None => {
                    proof {
                        assert(queue_views(ins@) =~= ins_mid);
                    }
                },
            }
            proof {
                vstd::set_lib::lemma_len_subset(scanned, objs);
                vstd::set_lib::lemma_len_subset(scanned_turn, scanned);
                vstd::set_lib::lemma_len_subset(scanned_start, scanned_turn);
                if scanned.len() == scanned_start.len() {
                    assert(scanned_turn.len() == scanned_start.len());
                    vstd::set_lib::lemma_subset_equality(scanned_turn, scanned);
                    assert(qs_mid == qs_turn && ins_mid == ins_turn && qs_turn[t as int].len() == 0);
                    if received is None {
                        assert(ins_turn[t as int].len() == 0);
                        if total_len(queue_views(ins@)) == total_len(ins_start) {
                            assert(qs_turn == qs_start && ins_turn == ins_start);
                            assert forall|u: int| 0 <= u < t + 1 implies #[trigger] qs_start[u].len() == 0
                                && ins_start[u].len() == 0 by {
                            }
                        }
                    } else {
                        assert(total_len(queue_views(ins@)) < total_len(ins_start));
                    }
                }
            }
            t += 1;
        }
        let qs_empty = all_empty(&qs);
        let ins_empty = all_empty(&ins);
        if qs_empty && ins_empty {
            break;
        }
        proof {
            vstd::set_lib::lemma_len_subset(scanned, objs);
            vstd::set_lib::lemma_len_subset(scanned_start, scanned);
            if scanned.len() == scanned_start.len() && total_len(queue_views(ins@)) == total_len(ins_start) {
                assert forall|u: int| 0 <= u < queue_views(qs@).len() implies #[trigger] queue_views(qs@)[u].len() == 0 by {
                    assert(qs_start[u].len() == 0 && ins_start[u].len() == 0);
                }
                assert forall|u: int| 0 <= u < queue_views(ins@).len() implies #[trigger] queue_views(ins@)[u].len() == 0 by {
                    assert(qs_start[u].len() == 0 && ins_start[u].len() == 0);
                }
                lemma_total_len_all_zero(queue_views(qs@));
                lemma_total_len_all_zero(queue_views(ins@));
            }
        }
    }
    proof {
        lemma_total_len_zero(queue_views(qs@));
        lemma_total_len_zero(queue_views(ins@));
        let marked = marked_objects_in(model, mem@, mark_sense);
        assert(marked.subset_of(objs));
        assert forall|x: u64| #[trigger] marked.contains(x) implies trace_reachable(model, mem0, roots_s, x) by {
        }
        assert forall|x: u64| #[trigger] marked.contains(x) implies scanned.contains(x) by {
            lemma_dist_owner_range(x);
            if !scanned.contains(x) {
                assert(queue_views(qs@)[dist_owner(x)].contains(x));
            }
        }
        assert forall|x: u64, c: u64| marked.contains(x) && #[trigger] points_to(model, mem0, x, c) implies marked.contains(
            c,
        ) by {
            lemma_dist_owner_range(c);
            assert(scanned.contains(x));
            if !marked.contains(c) {
                assert(queue_views(ins@)[dist_owner(c)].contains(c));
            }
        }
        assert forall|r: int| 0 <= r < roots_s.len() && #[trigger] roots_s[r] != 0 implies marked.contains(roots_s[r]) by {
            lemma_dist_owner_range(roots_s[r]);
            if !marked.contains(roots_s[r]) {
                assert(queue_views(ins@)[dist_owner(roots_s[r])].contains(roots_s[r]));
            }
        }
        assert forall|x: u64| #[trigger] marked.contains(x) implies is_marked_in(mem@, x, mark_sense) by {
        }
        lemma_closure_exact(model, mem0, mem@, mark_sense, marked);
    }
    stats
}

proof fn lemma_total_len_all_zero(s: Seq<Seq<u64>>)
    requires
        forall|i: int| 0 <= i < s.len() ==> #[trigger] s[i].len() == 0,
    ensures
        total_len(s) == 0,
    decreases s.len(),
{
    if s.len() > 0 {
        assert forall|i: int| 0 <= i < s.drop_last().len() implies #[trigger] s.drop_last()[i].len() == 0 by {
            assert(s.drop_last()[i] == s[i]);
        }
        lemma_total_len_all_zero(s.drop_last());
    }
}

} // verus!
