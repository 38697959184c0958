//! The transitive closure of a heap restored into target memory: marking
//! every object reachable from the roots, one slot at a time.
use vstd::prelude::*;
use crate::header::{byte_of, lemma_get_set_other, lemma_get_set_same, with_byte, MARK_BYTE_OFFSET};
use crate::mark::{is_marked_in, trace_object};
use crate::object_model::{ObjectModel, SlotChunk};
use crate::target_memory::{word_at, TargetMemory};

use crate::shape_cache::{no_lookups, ShapeCacheStats};

verus! {

/// Counters of one transitive closure.
#[derive(Debug, Clone, Copy, PartialEq, Eq, Structural)]
pub struct TracingStats {
    pub marked_objects: u64,
    pub slots: u64,
    pub non_empty_slots: u64,
    pub sends: u64,
    pub shape_cache_stats: ShapeCacheStats,
}

impl TracingStats {
    /// All counters zero.
    pub fn new() -> (r: Self)
        ensures
            r == (TracingStats {
                marked_objects: 0,
                slots: 0,
                non_empty_slots: 0,
                sends: 0,
                shape_cache_stats: no_lookups(),
            }),
    {
        TracingStats { marked_objects: 0, slots: 0, non_empty_slots: 0, sends: 0, shape_cache_stats: ShapeCacheStats::new() }
    }

    /// Adds the counters of `other`.
    pub fn add(&mut self, other: &TracingStats)
        requires
            old(self).marked_objects + other.marked_objects <= u64::MAX,
            old(self).slots + other.slots <= u64::MAX,
            old(self).non_empty_slots + other.non_empty_slots <= u64::MAX,
            old(self).sends + other.sends <= u64::MAX,
            old(self).shape_cache_stats.hits + other.shape_cache_stats.hits <= usize::MAX,
            old(self).shape_cache_stats.capacity_misses + other.shape_cache_stats.capacity_misses <= usize::MAX,
            old(self).shape_cache_stats.compulsory_misses_instance + other.shape_cache_stats.compulsory_misses_instance
                <= usize::MAX,
            old(self).shape_cache_stats.compulsory_misses_instance_mirror
                + other.shape_cache_stats.compulsory_misses_instance_mirror <= usize::MAX,
        ensures
            final(self).marked_objects == old(self).marked_objects + other.marked_objects,
            final(self).slots == old(self).slots + other.slots,
            final(self).non_empty_slots == old(self).non_empty_slots + other.non_empty_slots,
            final(self).sends == old(self).sends + other.sends,
            final(self).shape_cache_stats.hits == old(self).shape_cache_stats.hits + other.shape_cache_stats.hits,
            final(self).shape_cache_stats.capacity_misses == old(self).shape_cache_stats.capacity_misses
                + other.shape_cache_stats.capacity_misses,
            final(self).shape_cache_stats.compulsory_misses_instance
                == old(self).shape_cache_stats.compulsory_misses_instance
                + other.shape_cache_stats.compulsory_misses_instance,
            final(self).shape_cache_stats.compulsory_misses_instance_mirror
                == old(self).shape_cache_stats.compulsory_misses_instance_mirror
                + other.shape_cache_stats.compulsory_misses_instance_mirror,
    {
        self.marked_objects = self.marked_objects + other.marked_objects;
        self.slots = self.slots + other.slots;
        self.non_empty_slots = self.non_empty_slots + other.non_empty_slots;
        self.sends = self.sends + other.sends;
        self.shape_cache_stats.add(&other.shape_cache_stats);
    }
}

/// Slot `j` of chunk `c` (addresses wrap around).
pub open spec fn chunk_slot(c: SlotChunk, j: int) -> u64 {
    ((c.0 + 8 * j) % 0x1_0000_0000_0000_0000) as u64
}

/// `s` is a reference slot of object `o`.
pub open spec fn is_slot_of<O: ObjectModel>(model: &O, mem: Map<u64, u64>, o: u64, s: u64) -> bool {
    exists|c: int, j: int|
        0 <= c < model.scan_chunks(mem, o).len() && 0 <= j < model.scan_chunks(mem, o)[c].1 && s
            == #[trigger] chunk_slot(model.scan_chunks(mem, o)[c], j)
}

/// Object `o` refers to object `t`.
pub open spec fn points_to<O: ObjectModel>(model: &O, mem: Map<u64, u64>, o: u64, t: u64) -> bool {
    t != 0 && exists|s: u64| #[trigger] is_slot_of(model, mem, o, s) && word_at(mem, s) == t
}

/// `p` is a chain of references that starts at a non-null root.
pub open spec fn is_trace_path<O: ObjectModel>(model: &O, mem: Map<u64, u64>, roots: Seq<u64>, p: Seq<u64>) -> bool {
    &&& p.len() >= 1
    &&& p[0] != 0
    &&& roots.contains(p[0])
    &&& forall|i: int| 0 <= i < p.len() - 1 ==> #[trigger] points_to(model, mem, p[i], p[i + 1])
}

/// Object `o` is reachable from the roots.
pub open spec fn trace_reachable<O: ObjectModel>(model: &O, mem: Map<u64, u64>, roots: Seq<u64>, o: u64) -> bool {
    exists|p: Seq<u64>| #[trigger] is_trace_path(model, mem, roots, p) && p.last() == o
}

/// The objects reachable from the roots.
pub open spec fn reachable_objects<O: ObjectModel>(model: &O, mem: Map<u64, u64>, roots: Seq<u64>) -> Set<u64> {
    Set::new(|o: u64| trace_reachable(model, mem, roots, o))
}

/// `m2` differs from `m1` only in the mark bytes of objects of `objs`,
/// which are `mark_sense` in `m2`.
pub open spec fn marks_only(m1: Map<u64, u64>, m2: Map<u64, u64>, objs: Set<u64>, mark_sense: u8) -> bool {
    forall|a: u64|
        #[trigger] word_at(m2, a) != word_at(m1, a) ==> objs.contains(a) && word_at(m2, a) == with_byte(
            word_at(m1, a),
            mark_sense,
            MARK_BYTE_OFFSET as int,
        )
}

/// `m2` differs from `m1` only in the mark bytes of objects of `objs`.
pub open spec fn mark_bytes_only(m1: Map<u64, u64>, m2: Map<u64, u64>, objs: Set<u64>) -> bool {
    forall|a: u64|
        #[trigger] word_at(m2, a) != word_at(m1, a) ==> objs.contains(a) && word_at(m2, a) == with_byte(
            word_at(m1, a),
            byte_of(word_at(m2, a), MARK_BYTE_OFFSET as int),
            MARK_BYTE_OFFSET as int,
        )
}

/// A heap that the closure can trace from memory `mem`: every root and
/// every non-null reference of an object is an object of the model, no
/// object carries the mark yet, every object can be scanned, and setting
/// mark bytes changes neither what scanning finds nor what the slots hold.
pub open spec fn traceable<O: ObjectModel>(model: &O, mem: Map<u64, u64>, mark_sense: u8) -> bool {
    let objs = model.objects_spec().to_set();
    &&& forall|r: int| 0 <= r < model.roots_spec().len() && #[trigger] model.roots_spec()[r] != 0 ==> objs.contains(
        model.roots_spec()[r],
    )
    &&& forall|o: u64, s: u64|
        objs.contains(o) && #[trigger] is_slot_of(model, mem, o, s) && word_at(mem, s) != 0 ==> objs.contains(
            word_at(mem, s),
        )
    &&& forall|o: u64| #[trigger] objs.contains(o) ==> !is_marked_in(mem, o, mark_sense)
    &&& forall|m2: Map<u64, u64>, o: u64|
        mark_bytes_only(mem, m2, objs) && #[trigger] objs.contains(o) ==> #[trigger] model.can_scan(m2, o)
            && model.scan_chunks(m2, o) == model.scan_chunks(mem, o) && forall|s: u64|
            #[trigger] is_slot_of(model, mem, o, s) ==> word_at(m2, s) == word_at(mem, s)
}


/// The slots of `chunks`, chunk by chunk, in order.
pub open spec fn expand_chunks(chunks: Seq<SlotChunk>) -> Seq<u64>
    decreases chunks.len(),
{
    if chunks.len() == 0 {
        Seq::empty()
    } else {
        let c = chunks.last();
        expand_chunks(chunks.drop_last()) + Seq::new(c.1 as nat, |j: int| chunk_slot(c, j))
    }
}

pub(crate) proof fn lemma_expand_contains(chunks: Seq<SlotChunk>, s: u64)
    ensures
        expand_chunks(chunks).contains(s) <==> exists|c: int, j: int|
            0 <= c < chunks.len() && 0 <= j < chunks[c].1 && s == #[trigger] chunk_slot(chunks[c], j),
    decreases chunks.len(),
{
    if chunks.len() > 0 {
        let c = chunks.last();
        let init = chunks.drop_last();
        lemma_expand_contains(init, s);
        let tail = Seq::new(c.1 as nat, |j: int| chunk_slot(c, j));
        let e = expand_chunks(chunks);
        assert(e == expand_chunks(init) + tail);
        if e.contains(s) {
            let k = choose|k: int| 0 <= k < e.len() && e[k] == s;
            if k < expand_chunks(init).len() {
                assert(expand_chunks(init)[k] == s);
                assert(expand_chunks(init).contains(s));
                let (c0, j0) = choose|c0: int, j0: int|
                    0 <= c0 < init.len() && 0 <= j0 < init[c0].1 && s == #[trigger] chunk_slot(init[c0], j0);
                assert(chunks[c0] == init[c0]);
            } else {
                let j = k - expand_chunks(init).len();
                assert(tail[j] == s);
                assert(chunks[chunks.len() - 1] == c);
                assert(s == chunk_slot(chunks[chunks.len() - 1], j));
            }
        }
        if exists|c0: int, j0: int|
            0 <= c0 < chunks.len() && 0 <= j0 < chunks[c0].1 && s == #[trigger] chunk_slot(chunks[c0], j0) {
            let (c0, j0) = choose|c0: int, j0: int|
                0 <= c0 < chunks.len() && 0 <= j0 < chunks[c0].1 && s == #[trigger] chunk_slot(chunks[c0], j0);
            if c0 < chunks.len() - 1 {
                assert(init[c0] == chunks[c0]);
                assert(expand_chunks(init).contains(s));
                let k = choose|k: int| 0 <= k < expand_chunks(init).len() && expand_chunks(init)[k] == s;
                assert(e[k] == s);
            } else {
                assert(tail[j0] == s);
                assert(e[expand_chunks(init).len() + j0] == s);
            }
        }
    }
}

/// Pushes every slot of `chunks` onto `stack`, chunk by chunk.
pub(crate) fn push_slots(stack: &mut Vec<u64>, chunks: &Vec<SlotChunk>)
    ensures
        final(stack)@ == old(stack)@ + expand_chunks(chunks@),
{
    let mut k: usize = 0;
    while k < chunks.len()
        invariant
            k <= chunks@.len(),
            stack@ == old(stack)@ + expand_chunks(chunks@.subrange(0, k as int)),
        decreases chunks@.len() - k,
    {
        let c = chunks[k];
        let ghost before = stack@;
        let mut slot = c.0;
        let mut j: u64 = 0;
        while j < c.1
            invariant
                j <= c.1,
                slot == chunk_slot(c, j as int),
                stack@ == before + Seq::new(j as nat, |i: int| chunk_slot(c, i)),
            decreases c.1 - j,
        {
            stack.push(slot);
            proof {
                assert(Seq::new((j + 1) as nat, |i: int| chunk_slot(c, i)) == Seq::new(j as nat, |i: int| chunk_slot(c, i)).push(slot));
                vstd::arithmetic::div_mod::lemma_add_mod_noop(c.0 + 8 * j, 8, 0x1_0000_0000_0000_0000);
                vstd::arithmetic::div_mod::lemma_small_mod(8, 0x1_0000_0000_0000_0000);
            }
            slot = slot.wrapping_add(8);
            j += 1;
        }
        proof {
            let sub = chunks@.subrange(0, k + 1);
            assert(sub.drop_last() == chunks@.subrange(0, k as int));
            assert(sub.last() == c);
        }
        k += 1;
    }
    assert(chunks@.subrange(0, chunks@.len() as int) == chunks@);
}


/// Every slot on the stack is a slot of a marked object.
pub open spec fn stack_slots_ok<O: ObjectModel>(model: &O, mem: Map<u64, u64>, stack: Seq<u64>, marked: Set<u64>) -> bool {
    forall|i: int| 0 <= i < stack.len() ==> slot_owned(model, mem, marked, #[trigger] stack[i])
}

/// `s` is a slot of a marked object.
pub open spec fn slot_owned<O: ObjectModel>(model: &O, mem: Map<u64, u64>, marked: Set<u64>, s: u64) -> bool {
    exists|x: u64| #[trigger] marked.contains(x) && is_slot_of(model, mem, x, s)
}

/// Every non-null reference of a marked object is marked or waits on the stack.
pub open spec fn progress_ok<O: ObjectModel>(model: &O, mem: Map<u64, u64>, stack: Seq<u64>, marked: Set<u64>) -> bool {
    forall|x: u64, s: u64|
        marked.contains(x) && #[trigger] is_slot_of(model, mem, x, s) && word_at(mem, s) != 0 ==> marked.contains(
            word_at(mem, s),
        ) || stack.contains(s)
}

pub(crate) proof fn lemma_trace_root<O: ObjectModel>(model: &O, mem: Map<u64, u64>, roots: Seq<u64>, k: int)
    requires
        0 <= k < roots.len(),
        roots[k] != 0,
    ensures
        trace_reachable(model, mem, roots, roots[k]),
{
    let p = seq![roots[k]];
    assert(roots.contains(p[0]));
    assert(is_trace_path(model, mem, roots, p));
}

pub(crate) proof fn lemma_new_slots<O: ObjectModel>(
    model: &O,
    mem0: Map<u64, u64>,
    before: Seq<u64>,
    after: Seq<u64>,
    marked: Set<u64>,
    o: u64,
)
    requires
        after == before + expand_chunks(model.scan_chunks(mem0, o)),
        stack_slots_ok(model, mem0, before, marked),
        progress_ok(model, mem0, before, marked),
    ensures
        stack_slots_ok(model, mem0, after, marked.insert(o)),
        progress_ok(model, mem0, after, marked.insert(o)),
{
    let m2 = marked.insert(o);
    let ex = expand_chunks(model.scan_chunks(mem0, o));
    assert forall|i: int| 0 <= i < after.len() implies slot_owned(model, mem0, m2, #[trigger] after[i]) by {
        if i < before.len() {
            assert(after[i] == before[i]);
            assert(slot_owned(model, mem0, marked, before[i]));
            let x = choose|x: u64| #[trigger] marked.contains(x) && is_slot_of(model, mem0, x, before[i]);
            assert(m2.contains(x));
        } else {
            assert(after[i] == ex[i - before.len()]);
            assert(ex.contains(after[i]));
            lemma_expand_contains(model.scan_chunks(mem0, o), after[i]);
            assert(is_slot_of(model, mem0, o, after[i]));
            assert(m2.contains(o));
        }
    }
    assert forall|x: u64, sl: u64|
        m2.contains(x) && #[trigger] is_slot_of(model, mem0, x, sl) && word_at(mem0, sl) != 0 implies m2.contains(
            word_at(mem0, sl),
        ) || after.contains(sl) by {
        if x == o {
            lemma_expand_contains(model.scan_chunks(mem0, o), sl);
            let k = choose|k: int| 0 <= k < ex.len() && ex[k] == sl;
            assert(after[before.len() + k] == sl);
        } else {
            if before.contains(sl) {
                let k = choose|k: int| 0 <= k < before.len() && before[k] == sl;
                assert(after[k] == sl);
            }
        }
    }
}

pub(crate) proof fn lemma_pop_seen<O: ObjectModel>(
    model: &O,
    mem0: Map<u64, u64>,
    before: Seq<u64>,
    popped: Seq<u64>,
    e: u64,
    marked: Set<u64>,
)
    requires
        removes(before, popped, e),
        stack_slots_ok(model, mem0, before, marked),
        progress_ok(model, mem0, before, marked),
        word_at(mem0, e) == 0 || marked.contains(word_at(mem0, e)),
    ensures
        stack_slots_ok(model, mem0, popped, marked),
        progress_ok(model, mem0, popped, marked),
{
    assert forall|i: int| 0 <= i < popped.len() implies slot_owned(model, mem0, marked, #[trigger] popped[i]) by {
        assert(before.contains(popped[i]));
        let k = choose|k: int| 0 <= k < before.len() && before[k] == popped[i];
        assert(slot_owned(model, mem0, marked, before[k]));
    }
    assert forall|x: u64, sl: u64|
        marked.contains(x) && #[trigger] is_slot_of(model, mem0, x, sl) && word_at(mem0, sl) != 0 implies marked.contains(
            word_at(mem0, sl),
        ) || popped.contains(sl) by {
        if before.contains(sl) && sl != e {
            assert(popped.contains(sl));
        }
    }
}

/// `popped` is what is left of `before` once `e` is taken off it.
pub open spec fn removes(before: Seq<u64>, popped: Seq<u64>, e: u64) -> bool {
    &&& forall|i: int| 0 <= i < popped.len() ==> before.contains(#[trigger] popped[i])
    &&& forall|s: u64| #[trigger] before.contains(s) && s != e ==> popped.contains(s)
}

/// Taking the top off a stack.
pub(crate) proof fn lemma_removes_last(popped: Seq<u64>, e: u64)
    ensures
        removes(popped.push(e), popped, e),
{
    let before = popped.push(e);
    assert forall|i: int| 0 <= i < popped.len() implies before.contains(#[trigger] popped[i]) by {
        assert(before[i] == popped[i]);
    }
    assert forall|s: u64| #[trigger] before.contains(s) && s != e implies popped.contains(s) by {
        let k = choose|k: int| 0 <= k < before.len() && before[k] == s;
        assert(k < popped.len());
        assert(popped[k] == s);
    }
}

/// Taking the front off a queue.
pub(crate) proof fn lemma_removes_first(e: u64, popped: Seq<u64>)
    ensures
        removes(seq![e] + popped, popped, e),
{
    let before = seq![e] + popped;
    assert forall|i: int| 0 <= i < popped.len() implies before.contains(#[trigger] popped[i]) by {
        assert(before[i + 1] == popped[i]);
    }
    assert forall|s: u64| #[trigger] before.contains(s) && s != e implies popped.contains(s) by {
        let k = choose|k: int| 0 <= k < before.len() && before[k] == s;
        assert(k > 0);
        assert(popped[k - 1] == s);
    }
}

pub(crate) proof fn lemma_pop_visit<O: ObjectModel>(
    model: &O,
    mem0: Map<u64, u64>,
    before: Seq<u64>,
    popped: Seq<u64>,
    after: Seq<u64>,
    e: u64,
    marked: Set<u64>,
    o: u64,
)
    requires
        removes(before, popped, e),
        after == popped + expand_chunks(model.scan_chunks(mem0, o)),
        stack_slots_ok(model, mem0, before, marked),
        progress_ok(model, mem0, before, marked),
        word_at(mem0, e) == o,
    ensures
        stack_slots_ok(model, mem0, after, marked.insert(o)),
        progress_ok(model, mem0, after, marked.insert(o)),
{
    let m2 = marked.insert(o);
    let ex = expand_chunks(model.scan_chunks(mem0, o));
    assert forall|i: int| 0 <= i < after.len() implies slot_owned(model, mem0, m2, #[trigger] after[i]) by {
        if i < popped.len() {
            assert(after[i] == popped[i]);
            assert(before.contains(popped[i]));
            let k = choose|k: int| 0 <= k < before.len() && before[k] == popped[i];
            assert(slot_owned(model, mem0, marked, before[k]));
            let x = choose|x: u64| #[trigger] marked.contains(x) && is_slot_of(model, mem0, x, popped[i]);
            assert(m2.contains(x));
        } else {
            assert(after[i] == ex[i - popped.len()]);
            assert(ex.contains(after[i]));
            lemma_expand_contains(model.scan_chunks(mem0, o), after[i]);
            assert(m2.contains(o));
        }
    }
    assert forall|x: u64, sl: u64|
        m2.contains(x) && #[trigger] is_slot_of(model, mem0, x, sl) && word_at(mem0, sl) != 0 implies m2.contains(
            word_at(mem0, sl),
        ) || after.contains(sl) by {
        if x == o {
            lemma_expand_contains(model.scan_chunks(mem0, o), sl);
            let k = choose|k: int| 0 <= k < ex.len() && ex[k] == sl;
            assert(after[popped.len() + k] == sl);
        } else {
            if before.contains(sl) && sl != e {
                assert(popped.contains(sl));
                let k = choose|k: int| 0 <= k < popped.len() && popped[k] == sl;
                assert(after[k] == sl);
            }
        }
    }
}

pub(crate) proof fn lemma_marks_only_extend(m1: Map<u64, u64>, m2: Map<u64, u64>, marked: Set<u64>, o: u64, mark_sense: u8)
    requires
        marks_only(m1, m2, marked, mark_sense),
        !marked.contains(o),
    ensures
        marks_only(
            m1,
            m2.insert(o, with_byte(word_at(m2, o), mark_sense, MARK_BYTE_OFFSET as int)),
            marked.insert(o),
            mark_sense,
        ),
        word_at(m2, o) == word_at(m1, o),
{
    let m3 = m2.insert(o, with_byte(word_at(m2, o), mark_sense, MARK_BYTE_OFFSET as int));
    assert forall|a: u64| #[trigger] word_at(m3, a) != word_at(m1, a) implies marked.insert(o).contains(a) && word_at(m3, a)
        == with_byte(word_at(m1, a), mark_sense, MARK_BYTE_OFFSET as int) by {
        if a != o {
            assert(word_at(m3, a) == word_at(m2, a));
        }
    }
}

pub(crate) proof fn lemma_marks_only_widen(m1: Map<u64, u64>, m2: Map<u64, u64>, a: Set<u64>, b: Set<u64>, mark_sense: u8)
    requires
        marks_only(m1, m2, a, mark_sense),
        a.subset_of(b),
    ensures
        marks_only(m1, m2, b, mark_sense),
        mark_bytes_only(m1, m2, b),
{
    assert forall|x: u64| #[trigger] word_at(m2, x) != word_at(m1, x) implies b.contains(x) && word_at(m2, x)
        == with_byte(word_at(m1, x), byte_of(word_at(m2, x), MARK_BYTE_OFFSET as int), MARK_BYTE_OFFSET as int) by {
        lemma_get_set_same(word_at(m1, x), mark_sense, MARK_BYTE_OFFSET as int);
    }
}

pub(crate) proof fn lemma_mark_byte_of_marked(w: u64, mark_sense: u8)
    ensures
        byte_of(with_byte(w, mark_sense, MARK_BYTE_OFFSET as int), MARK_BYTE_OFFSET as int) == mark_sense,
{
    lemma_get_set_same(w, mark_sense, MARK_BYTE_OFFSET as int);
}

pub(crate) proof fn lemma_path_extend<O: ObjectModel>(model: &O, mem: Map<u64, u64>, roots: Seq<u64>, p: Seq<u64>, t: u64)
    requires
        is_trace_path(model, mem, roots, p),
        points_to(model, mem, p.last(), t),
    ensures
        is_trace_path(model, mem, roots, p.push(t)),
{
    let q = p.push(t);
    assert forall|i: int| 0 <= i < q.len() - 1 implies #[trigger] points_to(model, mem, q[i], q[i + 1]) by {
        if i < p.len() - 1 {
            assert(q[i] == p[i] && q[i + 1] == p[i + 1]);
        } else {
            assert(q[i] == p.last());
        }
    }
}

pub(crate) proof fn lemma_closed_holds_path<O: ObjectModel>(
    model: &O,
    mem: Map<u64, u64>,
    roots: Seq<u64>,
    v: Set<u64>,
    p: Seq<u64>,
    i: int,
)
    requires
        is_trace_path(model, mem, roots, p),
        0 <= i < p.len(),
        forall|r: int| 0 <= r < roots.len() && #[trigger] roots[r] != 0 ==> v.contains(roots[r]),
        forall|x: u64, t: u64| v.contains(x) && #[trigger] points_to(model, mem, x, t) ==> v.contains(t),
    ensures
        v.contains(p[i]),
    decreases i,
{
    if i == 0 {
        let r = choose|r: int| 0 <= r < roots.len() && roots[r] == p[0];
        assert(roots[r] != 0);
    } else {
        lemma_closed_holds_path(model, mem, roots, v, p, i - 1);
        let j = i - 1;
        assert(points_to(model, mem, p[j], p[j + 1]));
    }
}

/// Marks object `o` and, when this call marks it, pushes its slots.
fn visit<O: ObjectModel>(
    model: &O,
    mem: &mut TargetMemory,
    o: u64,
    mark_sense: u8,
    stack: &mut Vec<u64>,
    Ghost(mem0): Ghost<Map<u64, u64>>,
    Ghost(marked): Ghost<Set<u64>>,
) -> (r: bool)
    requires
        traceable(model, mem0, mark_sense),
        model.objects_spec().to_set().contains(o),
        marked.subset_of(model.objects_spec().to_set()),
        marks_only(mem0, old(mem)@, marked, mark_sense),
        forall|x: u64| #[trigger] marked.contains(x) ==> is_marked_in(old(mem)@, x, mark_sense),
    ensures
        r == !marked.contains(o),
        r ==> final(mem)@ == old(mem)@.insert(o, with_byte(word_at(old(mem)@, o), mark_sense, MARK_BYTE_OFFSET as int))
            && final(stack)@ == old(stack)@ + expand_chunks(model.scan_chunks(mem0, o)),
        !r ==> final(mem)@ == old(mem)@ && final(stack)@ == old(stack)@,
{
    let ghost objs = model.objects_spec().to_set();
    proof {
        if !marked.contains(o) {
            assert(word_at(old(mem)@, o) == word_at(mem0, o));
        }
    }
    if trace_object(mem, o, mark_sense) {
        proof {
            lemma_marks_only_extend(mem0, old(mem)@, marked, o, mark_sense);
            lemma_marks_only_widen(mem0, mem@, marked.insert(o), objs, mark_sense);
            assert(model.can_scan(mem@, o));
        }
        let chunks = model.scan_object(mem, o);
        push_slots(stack, &chunks);
        true
    } else {
        false
    }
}

/// Marks every object reachable from the roots, following each slot as
/// it is popped from a stack of slots; returns how many objects it marked.
pub fn transitive_closure_edge_slot<O: ObjectModel>(mark_sense: u8, model: &O, mem: &mut TargetMemory) -> (r: TracingStats)
    requires
        traceable(model, old(mem)@, mark_sense),
    ensures
        r.marked_objects == reachable_objects(model, old(mem)@, model.roots_spec()).len(),
        forall|o: u64|
            #[trigger] trace_reachable(model, old(mem)@, model.roots_spec(), o) <==> (model.objects_spec().contains(o)
                && is_marked_in(final(mem)@, o, mark_sense)),
        marks_only(old(mem)@, final(mem)@, reachable_objects(model, old(mem)@, model.roots_spec()), mark_sense),
{
    let ghost mem0 = mem@;
    let ghost objs = model.objects_spec().to_set();
    let ghost roots_s = model.roots_spec();
    let ghost mut marked: Set<u64> = Set::empty();
    let n_objects = model.objects().len();
    proof {
        vstd::seq_lib::seq_to_set_is_finite(model.objects_spec());
        model.objects_spec().lemma_cardinality_of_set();
    }
    let roots = model.roots();
    let mut stack: Vec<u64> = Vec::new();
    let mut stats = TracingStats::new();
    let mut k: usize = 0;
    while k < roots.len()
        invariant
            k <= roots@.len(),
            roots@ == roots_s,
            roots_s == model.roots_spec(),
            objs == model.objects_spec().to_set(),
            traceable(model, mem0, mark_sense),
            marked.subset_of(objs),
            marked.finite(),
            objs.finite(),
            objs.len() <= n_objects,
            stats.marked_objects == marked.len(),
            stats.non_empty_slots <= stats.slots,
            marks_only(mem0, mem@, marked, mark_sense),
            forall|x: u64| #[trigger] marked.contains(x) ==> is_marked_in(mem@, x, mark_sense),
            stack_slots_ok(model, mem0, stack@, marked),
            progress_ok(model, mem0, stack@, marked),
            forall|x: u64| #[trigger] marked.contains(x) ==> trace_reachable(model, mem0, roots_s, x),
            forall|r: int| 0 <= r < k && #[trigger] roots_s[r] != 0 ==> marked.contains(roots_s[r]),
        decreases roots@.len() - k,
    {
        let o = roots[k];
        stats.slots = stats.slots.saturating_add(1);
        if o != 0 {
            stats.non_empty_slots = stats.non_empty_slots.saturating_add(1);
            proof {
                assert(roots_s[k as int] == o);
                assert(objs.contains(o));
            }
            let ghost stack_before = stack@;
            let ghost mem_before = mem@;
            let newly = visit(model, mem, o, mark_sense, &mut stack, Ghost(mem0), Ghost(marked));
            if newly {
                proof {
                    lemma_marks_only_extend(mem0, mem_before, marked, o, mark_sense);
                    lemma_mark_byte_of_marked(word_at(mem_before, o), mark_sense);
                    vstd::set_lib::lemma_len_subset(marked.insert(o), objs);
                    lemma_trace_root(model, mem0, roots_s, k as int);
                    lemma_new_slots(model, mem0, stack_before, stack@, marked, o);
                    marked = marked.insert(o);
                    assert(marked.len() <= objs.len());
                }
                stats.marked_objects = stats.marked_objects + 1;
            }
        }
        k += 1;
    }
    while stack.len() > 0
        invariant
            roots_s == model.roots_spec(),
            objs == model.objects_spec().to_set(),
            traceable(model, mem0, mark_sense),
            marked.subset_of(objs),
            marked.finite(),
            objs.finite(),
            objs.len() <= n_objects,
            stats.marked_objects == marked.len(),
            marks_only(mem0, mem@, marked, mark_sense),
            forall|x: u64| #[trigger] marked.contains(x) ==> is_marked_in(mem@, x, mark_sense),
            stack_slots_ok(model, mem0, stack@, marked),
            progress_ok(model, mem0, stack@, marked),
            forall|x: u64| #[trigger] marked.contains(x) ==> trace_reachable(model, mem0, roots_s, x),
            forall|r: int| 0 <= r < roots_s.len() && #[trigger] roots_s[r] != 0 ==> marked.contains(roots_s[r]),
        decreases objs.len() - marked.len(), stack@.len(),
    {
        proof {
            vstd::set_lib::lemma_len_subset(marked, objs);
        }
        let ghost stack_before = stack@;
        let e = stack.pop().unwrap();
        proof {
            assert(stack_before == stack@.push(e));
            assert(stack_before[stack_before.len() - 1] == e);
        }
        proof {
            assert(slot_owned(model, mem0, marked, stack_before[stack_before.len() - 1]));
        }
        let ghost x = choose|x: u64| #[trigger] marked.contains(x) && is_slot_of(model, mem0, x, stack_before[stack_before.len() - 1]);
        proof {
            lemma_marks_only_widen(mem0, mem@, marked, objs, mark_sense);
            assert(objs.contains(x));
            assert(model.can_scan(mem@, x));
            assert(word_at(mem@, e) == word_at(mem0, e));
        }
        let o = mem.load(e);
        stats.slots = stats.slots.saturating_add(1);
        if o != 0 {
            stats.non_empty_slots = stats.non_empty_slots.saturating_add(1);
            proof {
                assert(objs.contains(o));
            }
            let ghost popped = stack@;
            let ghost mem_before = mem@;
            let newly = visit(model, mem, o, mark_sense, &mut stack, Ghost(mem0), Ghost(marked));
            if newly {
                proof {
                    lemma_marks_only_extend(mem0, mem_before, marked, o, mark_sense);
                    lemma_mark_byte_of_marked(word_at(mem_before, o), mark_sense);
                    vstd::set_lib::lemma_len_subset(marked.insert(o), objs);
                    assert(points_to(model, mem0, x, o));
                    let p = choose|p: Seq<u64>| #[trigger] is_trace_path(model, mem0, roots_s, p) && p.last() == x;
                    lemma_path_extend(model, mem0, roots_s, p, o);
                    assert(p.push(o).last() == o);
                    lemma_removes_last(popped, e);
                    lemma_pop_visit(model, mem0, stack_before, popped, stack@, e, marked, o);
                    marked = marked.insert(o);
                }
                stats.marked_objects = stats.marked_objects + 1;
            } else {
                proof {
                    lemma_removes_last(popped, e);
                    lemma_pop_seen(model, mem0, stack_before, popped, e, marked);
                }
            }
        } else {
            proof {
                lemma_removes_last(stack@, e);
                lemma_pop_seen(model, mem0, stack_before, stack@, e, marked);
            }
        }
    }
    proof {
        let reach = reachable_objects(model, mem0, roots_s);
        assert forall|x: u64, t: u64| marked.contains(x) && #[trigger] points_to(model, mem0, x, t) implies marked.contains(t) by {
            let sl = choose|sl: u64| #[trigger] is_slot_of(model, mem0, x, sl) && word_at(mem0, sl) == t;
        }
        assert forall|o: u64| #[trigger] reach.contains(o) <==> marked.contains(o) by {
            if reach.contains(o) {
                let p = choose|p: Seq<u64>| #[trigger] is_trace_path(model, mem0, roots_s, p) && p.last() == o;
                lemma_closed_holds_path(model, mem0, roots_s, marked, p, p.len() - 1);
            }
        }
        assert(reach =~= marked);
        assert(mem0 == old(mem)@);
        assert forall|o: u64| #[trigger] trace_reachable(model, old(mem)@, model.roots_spec(), o) <==> (model.objects_spec().contains(o)
            && is_marked_in(mem@, o, mark_sense)) by {
            assert(reach.contains(o) == trace_reachable(model, old(mem)@, model.roots_spec(), o));
            if model.objects_spec().contains(o) && !marked.contains(o) {
                assert(objs.contains(o));
                assert(word_at(mem@, o) == word_at(mem0, o));
                assert(!is_marked_in(mem0, o, mark_sense));
                assert(!reach.contains(o));
            }
            if marked.contains(o) {
                assert(objs.contains(o));
                assert(model.objects_spec().contains(o));
                assert(reach.contains(o));
            }
        }
        assert(mem0 == old(mem)@);
        assert(roots_s == model.roots_spec());

    }
    stats
}

} // verus!
