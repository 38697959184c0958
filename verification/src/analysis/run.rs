//! Running the message analysis over a heap: it marks exactly the objects
//! reachable from the roots, whatever the parameters.
use vstd::prelude::*;
use crate::analysis::work::{
    group_slots, mark_ready, mark_word, null_slots, numrefs_at, sat_add, sat_inc, status_at, work_mem, work_ready,
    worker_id, worker_ok, Analysis, TaggedWork, Work, Worker,
};
use crate::distributed::marked_objects_in;
use crate::header::{lemma_get_set_other, MARK_BYTE_OFFSET};
use crate::heapdump::space_code;
use crate::mark::is_marked_in;
use crate::object_model::{ObjectModel, TibType};
use crate::object_model::bidirectional::{
    status_known, tib_of, BidirectionalObjectModel, NUMREFS_BYTE_OFFSET, STATUS_BYTE_OFFSET, STATUS_FALLBACK,
    STATUS_NO_REF, STATUS_OBJ_ARRAY, STATUS_ORDINARY,
};
use crate::target_memory::{word_at, TargetMemory};
use crate::trace::{
    chunk_slot, is_slot_of, is_trace_path, lemma_path_extend, lemma_trace_root, mark_bytes_only, marks_only,
    points_to, reachable_objects, trace_reachable, traceable,
};

verus! {

/// A heap the analysis can run on, with `b` the bytes of a stride of every
/// thread: the heap is traceable with mark 1, and every object has a size,
/// is word aligned with its first three words in the address space, lies
/// in a space, has a header with a known status (a header that defers to
/// the TIB is not an array's), and its slots, with a stride of every thread
/// after them, lie in the address space.
pub open spec fn analysis_heap(model: &BidirectionalObjectModel<true>, mem: Map<u64, u64>, b: u64) -> bool {
    let objs = model.objects_spec().to_set();
    &&& traceable(model, mem, 1)
    &&& forall|o: u64| #[trigger]
        objs.contains(o) ==> {
            &&& model.sizes_spec().contains_key(o)
            &&& o % 8 == 0
            &&& o + 24 <= u64::MAX
            &&& 1 <= space_code(o) <= 4
            &&& status_known(mem, o)
            &&& status_at(mem, o) == STATUS_FALLBACK ==> model.tibs()[tib_of(mem, o)].ttype != TibType::ObjArray
            &&& forall|i: int|
                0 <= i < model.scan_chunks(mem, o).len() ==> #[trigger] model.scan_chunks(mem, o)[i].0 + 8
                    * model.scan_chunks(mem, o)[i].1 + b <= u64::MAX
        }
}

/// A bound on the weight of what sending a group of `count` slots among
/// `n` threads creates, plus one.
pub open spec fn send_weight(n: int, count: int) -> int {
    3 * count + n * (count + 1) + 3
}

/// How much work a piece of work can lead to before another object is
/// marked.
pub open spec fn item_weight(model: &BidirectionalObjectModel<true>, mem0: Map<u64, u64>, n: int, t: TaggedWork) -> int {
    match t.work {
        Work::MarkObject(_) => 1,
        Work::Edges { count, .. } => 1 + count,
        Work::ScanRefarray(o) => 1 + send_weight(n, word_at(mem0, o.wrapping_add(16)) as int),
        Work::ScanObject { tib_ptr, .. } => 1 + send_weight(n, model.tibs()[tib_ptr].num_refs as int),
        Work::LoadTIB(o) => 2 + send_weight(n, model.tibs()[tib_of(mem0, o)].num_refs as int),
    }
}

/// The weight of a queue of work.
pub open spec fn queue_weight(model: &BidirectionalObjectModel<true>, mem0: Map<u64, u64>, n: int, q: Seq<TaggedWork>) -> int
    decreases q.len(),
{
    if q.len() == 0 {
        0
    } else {
        queue_weight(model, mem0, n, q.drop_last()) + item_weight(model, mem0, n, q.last())
    }
}

proof fn lemma_weight_concat(
    model: &BidirectionalObjectModel<true>,
    mem0: Map<u64, u64>,
    n: int,
    a: Seq<TaggedWork>,
    b: Seq<TaggedWork>,
)
    ensures
        queue_weight(model, mem0, n, a + b) == queue_weight(model, mem0, n, a) + queue_weight(model, mem0, n, b),
    decreases b.len(),
{
    if b.len() == 0 {
        assert(a + b =~= a);
    } else {
        lemma_weight_concat(model, mem0, n, a, b.drop_last());
        assert((a + b).drop_last() =~= a + b.drop_last());
    }
}

proof fn lemma_weight_bound(model: &BidirectionalObjectModel<true>, mem0: Map<u64, u64>, n: int, q: Seq<TaggedWork>, w: int)
    requires
        forall|i: int| 0 <= i < q.len() ==> item_weight(model, mem0, n, #[trigger] q[i]) <= w,
    ensures
        queue_weight(model, mem0, n, q) <= q.len() * w,
    decreases q.len(),
{
    if q.len() > 0 {
        lemma_weight_bound(model, mem0, n, q.drop_last(), w);
        assert(item_weight(model, mem0, n, q[q.len() - 1]) <= w);
        assert((q.len() - 1) * w + w == q.len() * w) by (nonlinear_arith);
    }
}

proof fn lemma_weight_nonneg(model: &BidirectionalObjectModel<true>, mem0: Map<u64, u64>, n: int, q: Seq<TaggedWork>)
    requires
        n >= 0,
    ensures
        queue_weight(model, mem0, n, q) >= 0,
    decreases q.len(),
{
    if q.len() > 0 {
        lemma_weight_nonneg(model, mem0, n, q.drop_last());
        match q.last().work {
            Work::ScanRefarray(o) => {
                let c = word_at(mem0, o.wrapping_add(16)) as int;
                assert(n * (c + 1) >= 0) by (nonlinear_arith)
                    requires
                        n >= 0,
                        c >= 0,
                ;
            },
            Work::ScanObject { tib_ptr, .. } => {
                let c = model.tibs()[tib_ptr].num_refs as int;
                assert(n * (c + 1) >= 0) by (nonlinear_arith)
                    requires
                        n >= 0,
                        c >= 0,
                ;
            },
            Work::LoadTIB(o) => {
                let c = model.tibs()[tib_of(mem0, o)].num_refs as int;
                assert(n * (c + 1) >= 0) by (nonlinear_arith)
                    requires
                        n >= 0,
                        c >= 0,
                ;
            },
            _ => {},
        }
    }
}


/// The only chunk of slots of object `x`.
pub open spec fn chunk_of(model: &BidirectionalObjectModel<true>, mem0: Map<u64, u64>, x: u64) -> (u64, u64) {
    model.scan_chunks(mem0, x)[0]
}

/// The group of `c1` slots from `s1` lies within the group of `c` slots
/// from `s`.
pub open spec fn sub_group(s1: u64, c1: u64, s: u64, c: u64) -> bool {
    &&& s <= s1
    &&& s1 + 8 * c1 <= s + 8 * c
    &&& (s1 - s) % 8 == 0
}

/// A piece of queued work of the analysis of the heap in `mem0`, with the
/// objects `marked` marked: the marking of a reachable object, a step of
/// scanning a marked object, or a group of slots of a marked object.
pub open spec fn item_valid(
    model: &BidirectionalObjectModel<true>,
    mem0: Map<u64, u64>,
    marked: Set<u64>,
    n: usize,
    t: TaggedWork,
) -> bool {
    let objs = model.objects_spec().to_set();
    &&& worker_ok(t, n)
    &&& match t.work {
        Work::MarkObject(c) => objs.contains(c) && trace_reachable(model, mem0, model.roots_spec(), c),
        Work::LoadTIB(o) => marked.contains(o) && objs.contains(o) && status_at(mem0, o) == STATUS_FALLBACK,
        Work::ScanObject { tib_ptr, o } => marked.contains(o) && objs.contains(o) && status_at(mem0, o)
            == STATUS_FALLBACK && model.tibs().contains_key(tib_ptr) && model.tibs()[tib_ptr].num_refs
            == model.tibs()[tib_of(mem0, o)].num_refs,
        Work::ScanRefarray(o) => marked.contains(o) && objs.contains(o) && status_at(mem0, o) == STATUS_OBJ_ARRAY,
        Work::Edges { start, count } => exists|x: u64|
            #![trigger marked.contains(x)]
            marked.contains(x) && objs.contains(x) && model.scan_chunks(mem0, x).len() == 1 && sub_group(
                start,
                count,
                chunk_of(model, mem0, x).0,
                chunk_of(model, mem0, x).1,
            ),
    }
}

/// The chunks of an object of the heap, by the status of its header.
proof fn lemma_chunks(model: &BidirectionalObjectModel<true>, mem0: Map<u64, u64>, b: u64, o: u64)
    requires
        analysis_heap(model, mem0, b),
        model.objects_spec().to_set().contains(o),
    ensures
        status_at(mem0, o) == STATUS_NO_REF ==> model.scan_chunks(mem0, o).len() == 0,
        status_at(mem0, o) == STATUS_ORDINARY ==> model.scan_chunks(mem0, o) == seq![
            ((o + 16) as u64, numrefs_at(mem0, o) as u64),
        ],
        status_at(mem0, o) == STATUS_OBJ_ARRAY ==> model.scan_chunks(mem0, o) == seq![
            ((o + 24) as u64, word_at(mem0, (o + 16) as u64)),
        ],
        status_at(mem0, o) == STATUS_FALLBACK ==> model.scan_chunks(mem0, o) == seq![
            ((o + 16) as u64, model.tibs()[tib_of(mem0, o)].num_refs),
        ],
        o.wrapping_add(16) == o + 16,
        o.wrapping_add(24) == o + 24,
        o.wrapping_add(8) == o + 8,
        forall|i: int|
            0 <= i < model.scan_chunks(mem0, o).len() ==> #[trigger] model.scan_chunks(mem0, o)[i].0 + 8
                * model.scan_chunks(mem0, o)[i].1 + b <= u64::MAX,
{
    assert(model.objects_spec().to_set().contains(o));
}

/// Memory that differs from the heap's only in mark bytes has the same
/// header status bytes, chunks and slot words.
proof fn lemma_stable(model: &BidirectionalObjectModel<true>, mem0: Map<u64, u64>, m: Map<u64, u64>, b: u64, o: u64)
    requires
        analysis_heap(model, mem0, b),
        mark_bytes_only(mem0, m, model.objects_spec().to_set()),
        model.objects_spec().to_set().contains(o),
    ensures
        status_at(m, o) == status_at(mem0, o),
        numrefs_at(m, o) == numrefs_at(mem0, o),
        model.can_scan(m, o),
        model.scan_chunks(m, o) == model.scan_chunks(mem0, o),
        forall|s: u64| #[trigger] is_slot_of(model, mem0, o, s) ==> word_at(m, s) == word_at(mem0, s),
        status_at(mem0, o) == STATUS_OBJ_ARRAY ==> word_at(m, o.wrapping_add(16)) == word_at(mem0, o.wrapping_add(16)),
        status_at(mem0, o) == STATUS_FALLBACK ==> model.tibs().contains_key(tib_of(m, o)) && model.tibs()[tib_of(
            m,
            o,
        )].num_refs == model.tibs()[tib_of(mem0, o)].num_refs,
{
    let objs = model.objects_spec().to_set();
    assert(objs.contains(o));
    assert(mark_bytes_only(mem0, m, objs) && objs.contains(o));
    assert(model.can_scan(m, o));
    assert(model.scan_chunks(m, o) == model.scan_chunks(mem0, o));
    assert(mark_bytes_only(mem0, mem0, objs));
    assert(model.can_scan(mem0, o));
    if word_at(m, o) != word_at(mem0, o) {
        lemma_get_set_other(word_at(mem0, o), crate::header::byte_of(word_at(m, o), MARK_BYTE_OFFSET as int), MARK_BYTE_OFFSET as int, STATUS_BYTE_OFFSET as int);
        lemma_get_set_other(word_at(mem0, o), crate::header::byte_of(word_at(m, o), MARK_BYTE_OFFSET as int), MARK_BYTE_OFFSET as int, NUMREFS_BYTE_OFFSET as int);
    }
    lemma_chunks(model, mem0, b, o);
    if status_at(mem0, o) == STATUS_OBJ_ARRAY {
        assert(crate::object_model::bidirectional::header_chunks(m, o) == Some(seq![crate::object_model::bidirectional::array_chunk(m, o)]));
        assert(model.scan_chunks(m, o)[0] == crate::object_model::bidirectional::array_chunk(m, o));
        assert(model.scan_chunks(mem0, o)[0] == crate::object_model::bidirectional::array_chunk(mem0, o));
    }
    if status_at(mem0, o) == STATUS_FALLBACK {
        let t0 = model.tibs()[tib_of(mem0, o)];
        let t1 = model.tibs()[tib_of(m, o)];
        assert(crate::object_model::bidirectional::header_chunks(m, o) is None);
        assert(model.scan_chunks(m, o) == crate::object_model::bidirectional::fallback_chunks(t1, m, o));
        assert(model.scan_chunks(mem0, o) == crate::object_model::bidirectional::fallback_chunks(t0, mem0, o));
        if t1.ttype == TibType::ObjArray {
            assert(model.scan_chunks(m, o)[0].0 == o.wrapping_add(24));
            assert(false);
        }
        assert(model.scan_chunks(m, o)[0].1 == t1.num_refs);
    }
}

/// Slots of a group within the chunk of a single-chunk object are slots of
/// that object.
proof fn lemma_group_slot(
    model: &BidirectionalObjectModel<true>,
    mem0: Map<u64, u64>,
    x: u64,
    s1: u64,
    c1: u64,
    e: u64,
)
    requires
        model.scan_chunks(mem0, x).len() == 1,
        sub_group(s1, c1, chunk_of(model, mem0, x).0, chunk_of(model, mem0, x).1),
        group_slots(s1, c1).contains(e),
        chunk_of(model, mem0, x).0 + 8 * chunk_of(model, mem0, x).1 <= u64::MAX,
    ensures
        is_slot_of(model, mem0, x, e),
{
    let (cs, cc) = chunk_of(model, mem0, x);
    let i = choose|i: int| 0 <= i < c1 && group_slots(s1, c1)[i] == e;
    let j = (s1 - cs) / 8 + i;
    assert(e == cs + 8 * j);
    assert(chunk_slot(model.scan_chunks(mem0, x)[0], j) == e);
}


/// The owner of an address is one of the threads.
proof fn lemma_owner_bound(a: &Analysis, x: u64)
    requires
        a.wf(),
    ensures
        a.owner(x) < a.num_threads,
{
    vstd::arithmetic::power2::lemma_pow2_pos(a.log_num_threads as nat);
    vstd::arithmetic::div_mod::lemma_mod_bound(
        (x as nat / vstd::arithmetic::power2::pow2(a.owner_shift as nat)) as int,
        vstd::arithmetic::power2::pow2(a.log_num_threads as nat) as int,
    );
}

/// Loading slots of a marked reachable object creates the marking of
/// reachable objects only, of weight at most the number of slots.
proof fn lemma_edge_works_valid(
    a: &Analysis,
    model: &BidirectionalObjectModel<true>,
    mem0: Map<u64, u64>,
    m: Map<u64, u64>,
    marked: Set<u64>,
    w: usize,
    loads: Seq<u64>,
    x: u64,
)
    requires
        a.wf(),
        analysis_heap(model, mem0, a.next_stride_delta),
        mark_bytes_only(mem0, m, model.objects_spec().to_set()),
        model.objects_spec().to_set().contains(x),
        trace_reachable(model, mem0, model.roots_spec(), x),
        forall|i: int| 0 <= i < loads.len() ==> is_slot_of(model, mem0, x, #[trigger] loads[i]),
    ensures
        forall|i: int|
            0 <= i < a.edge_works(w, loads, m).len() ==> item_valid(
                model,
                mem0,
                marked,
                a.num_threads,
                #[trigger] a.edge_works(w, loads, m)[i],
            ),
        queue_weight(model, mem0, a.num_threads as int, a.edge_works(w, loads, m)) <= loads.len(),
    decreases loads.len(),
{
    if loads.len() > 0 {
        let init = loads.drop_last();
        lemma_edge_works_valid(a, model, mem0, m, marked, w, init, x);
        let e = loads.last();
        assert(is_slot_of(model, mem0, x, loads[loads.len() - 1]));
        lemma_stable(model, mem0, m, a.next_stride_delta, x);
        let child = word_at(m, e);
        assert(child == word_at(mem0, e));
        let lw = crate::analysis::work::load_works(w, child, a.owner(child));
        let ew0 = a.edge_works(w, init, m);
        assert(a.edge_works(w, loads, m) == ew0 + lw);
        lemma_weight_concat(model, mem0, a.num_threads as int, ew0, lw);
        if child != 0 {
            let objs = model.objects_spec().to_set();
            assert(objs.contains(x) && is_slot_of(model, mem0, x, e) && word_at(mem0, e) != 0);
            assert(objs.contains(child));
            let p = choose|p: Seq<u64>| #[trigger] is_trace_path(model, mem0, model.roots_spec(), p) && p.last() == x;
            assert(points_to(model, mem0, x, child));
            lemma_path_extend(model, mem0, model.roots_spec(), p, child);
            assert(p.push(child).last() == child);
            lemma_owner_bound(a, child);
            reveal_with_fuel(queue_weight, 2);
            assert(lw.drop_last() =~= Seq::<TaggedWork>::empty());
        } else {
            assert(lw =~= Seq::<TaggedWork>::empty());
        }
        assert forall|i: int| 0 <= i < (ew0 + lw).len() implies item_valid(
            model,
            mem0,
            marked,
            a.num_threads,
            #[trigger] (ew0 + lw)[i],
        ) by {
            if i < ew0.len() {
                assert((ew0 + lw)[i] == ew0[i]);
            } else {
                assert((ew0 + lw)[i] == lw[i - ew0.len()]);
            }
        }
    }
}


/// What sending a group of slots of a marked object loads and sends: slots
/// of the group, at most as many as it has, and groups within it, of
/// bounded weight.
proof fn lemma_sent_valid(
    a: &Analysis,
    model: &BidirectionalObjectModel<true>,
    mem0: Map<u64, u64>,
    marked: Set<u64>,
    sender: usize,
    start: u64,
    count: u64,
    x: u64,
)
    requires
        a.wf(),
        marked.contains(x),
        model.objects_spec().to_set().contains(x),
        model.scan_chunks(mem0, x).len() == 1,
        sub_group(start, count, chunk_of(model, mem0, x).0, chunk_of(model, mem0, x).1),
        chunk_of(model, mem0, x).0 % 8 == 0,
        chunk_of(model, mem0, x).0 + 8 * chunk_of(model, mem0, x).1 + a.next_stride_delta <= u64::MAX,
    ensures
        forall|i: int|
            0 <= i < a.sent_works(sender, start, count).len() ==> item_valid(
                model,
                mem0,
                marked,
                a.num_threads,
                #[trigger] a.sent_works(sender, start, count)[i],
            ),
        forall|i: int|
            0 <= i < a.sent_loads(sender, start, count).len() ==> is_slot_of(
                model,
                mem0,
                x,
                #[trigger] a.sent_loads(sender, start, count)[i],
            ),
        a.sent_loads(sender, start, count).len() <= count,
        queue_weight(model, mem0, a.num_threads as int, a.sent_works(sender, start, count)) <= 2 + 2 * count
            + a.num_threads * (count + 1),
{
    let n = a.num_threads as int;
    let sw = a.sent_works(sender, start, count);
    let sl = a.sent_loads(sender, start, count);
    let (cs, cc) = chunk_of(model, mem0, x);
    let g = group_slots(start, count);
    lemma_owner_bound(a, start);
    vstd::arithmetic::power2::lemma_pow2_pos(a.log_num_threads as nat);
    // The slots loaded.
    if count == 0 || !a.eager_own(sender, start) || (count > 1 && !a.rle) {
        assert(sl.len() == 0);
    } else if count == 1 {
        assert(sl == seq![start]);
        assert(g[0] == start);
        lemma_group_slot(model, mem0, x, start, count, start);
    } else {
        assert(sl == g.filter(crate::analysis::work::owned_pred(a.owner_shift as nat, a.log_num_threads as nat, sender)));
        g.lemma_filter_len(crate::analysis::work::owned_pred(a.owner_shift as nat, a.log_num_threads as nat, sender));
        assert forall|i: int| 0 <= i < sl.len() implies is_slot_of(model, mem0, x, #[trigger] sl[i]) by {
            g.lemma_filter_contains_rev(crate::analysis::work::owned_pred(a.owner_shift as nat, a.log_num_threads as nat, sender), sl[i]);
            lemma_group_slot(model, mem0, x, start, count, sl[i]);
        }
    }
    // The groups sent.
    if count == 0 {
        assert(sw.len() == 0);
    } else if count == 1 {
        if !a.eager_own(sender, start) {
            reveal_with_fuel(queue_weight, 2);
            assert(sw.drop_last() =~= Seq::<TaggedWork>::empty());
            assert(item_valid(model, mem0, marked, a.num_threads, sw[0]));
        }
        assert(queue_weight(model, mem0, n, sw) <= 2) by {
            reveal_with_fuel(queue_weight, 2);
            if sw.len() == 1 {
                assert(sw.drop_last() =~= Seq::<TaggedWork>::empty());
            }
        }
        assert(n * (count + 1) >= 0) by (nonlinear_arith)
            requires
                n >= 0,
        ;
    } else if !a.rle {
        assert forall|i: int| 0 <= i < sw.len() implies item_valid(model, mem0, marked, a.num_threads, #[trigger] sw[i]) by {
            let e = (start + 8 * i) as u64;
            lemma_owner_bound(a, e);
            assert(sub_group(e, 1, cs, cc));
        }
        assert forall|i: int| 0 <= i < sw.len() implies item_weight(model, mem0, n, #[trigger] sw[i]) <= 2 by {}
        lemma_weight_bound(model, mem0, n, sw, 2);
        assert(n * (count + 1) >= 0) by (nonlinear_arith)
            requires
                n >= 0,
        ;
    } else {
        assert forall|i: int| 0 <= i < sw.len() implies item_valid(model, mem0, marked, a.num_threads, #[trigger] sw[i]) by {
            let r = (a.owner(start) + 1 + i) % n;
            vstd::arithmetic::div_mod::lemma_mod_bound(a.owner(start) + 1 + i, n);
        }
        assert forall|i: int| 0 <= i < sw.len() implies item_weight(model, mem0, n, #[trigger] sw[i]) <= 1 + count by {}
        lemma_weight_bound(model, mem0, n, sw, 1 + count);
        vstd::arithmetic::power2::lemma_pow2_adds(3, (a.owner_shift - 3) as nat);
        vstd::arithmetic::power2::lemma_pow2_pos((a.owner_shift - 3) as nat);
        assert(vstd::arithmetic::power2::pow2(3) == 8) by {
            vstd::arithmetic::power2::lemma2_to64();
        }
        assert(a.stride_length as int / 8 >= 1);
        let er = a.extra_receivers(start, count);
        if count > a.fit_in_first_stride(start) {
            let p = a.stride_length as int / 8;
            assert((count - a.fit_in_first_stride(start) + p - 1) / p >= 0) by (nonlinear_arith)
                requires
                    count - a.fit_in_first_stride(start) + p - 1 >= 0,
                    p >= 1,
            ;
        }
        assert(0 <= er <= n - 1);
        assert(sw.len() <= n);
        assert(sw.len() * (1 + count) <= n * (count + 1)) by (nonlinear_arith)
            requires
                sw.len() <= n,
                count >= 0,
        ;
    }
}


/// The progress of the analysis of the heap in `mem0`: memory differs from
/// it only by the marks of marked objects, every marked object is
/// reachable, and every queued work is valid.
pub open spec fn run_inv(
    a: &Analysis,
    model: &BidirectionalObjectModel<true>,
    mem0: Map<u64, u64>,
    mem: Map<u64, u64>,
    q: Seq<TaggedWork>,
) -> bool {
    let marked = marked_objects_in(model, mem, 1);
    &&& a.wf()
    &&& analysis_heap(model, mem0, a.next_stride_delta)
    &&& marks_only(mem0, mem, marked, 1)
    &&& forall|x: u64| #[trigger] marked.contains(x) ==> trace_reachable(model, mem0, model.roots_spec(), x)
    &&& forall|i: int| 0 <= i < q.len() ==> item_valid(model, mem0, marked, a.num_threads, #[trigger] q[i])
}

/// Valid work is ready to be done.
proof fn lemma_ready(
    a: &Analysis,
    model: &BidirectionalObjectModel<true>,
    mem0: Map<u64, u64>,
    mem: Map<u64, u64>,
    q: Seq<TaggedWork>,
    i: int,
)
    requires
        run_inv(a, model, mem0, mem, q),
        0 <= i < q.len(),
    ensures
        work_ready(model, mem, q[i], a.num_threads, a.next_stride_delta),
{
    let objs = model.objects_spec().to_set();
    let marked = marked_objects_in(model, mem, 1);
    let b = a.next_stride_delta;
    let t = q[i];
    assert(item_valid(model, mem0, marked, a.num_threads, q[i]));
    assert(marked.subset_of(objs));
    crate::trace::lemma_marks_only_widen(mem0, mem, marked, objs, 1);
    match t.work {
        Work::MarkObject(c) => {
            lemma_stable(model, mem0, mem, b, c);
            lemma_chunks(model, mem0, b, c);
            if !is_marked_in(mem, c, 1) {
                let m2 = mark_word(mem, c);
                crate::distributed::lemma_mark_one(model, mem0, mem, 1, c);
                crate::trace::lemma_marks_only_widen(mem0, m2, marked.insert(c), objs, 1);
                lemma_stable(model, mem0, m2, b, c);
                if status_at(mem, c) == STATUS_ORDINARY {
                    assert(chunk_of(model, mem0, c) == ((c + 16) as u64, numrefs_at(mem0, c) as u64));
                    assert(model.scan_chunks(mem0, c)[0].0 + 8 * model.scan_chunks(mem0, c)[0].1 + b <= u64::MAX);
                }
            }
        },
        Work::LoadTIB(o) => {},
        Work::ScanObject { tib_ptr, o } => {
            lemma_chunks(model, mem0, b, o);
            assert(model.scan_chunks(mem0, o)[0].0 + 8 * model.scan_chunks(mem0, o)[0].1 + b <= u64::MAX);
        },
        Work::ScanRefarray(o) => {
            lemma_stable(model, mem0, mem, b, o);
            lemma_chunks(model, mem0, b, o);
            assert(model.scan_chunks(mem0, o)[0].0 + 8 * model.scan_chunks(mem0, o)[0].1 + b <= u64::MAX);
        },
        Work::Edges { start, count } => {
            let x = choose|x: u64|
                #![trigger marked.contains(x)]
                marked.contains(x) && objs.contains(x) && model.scan_chunks(mem0, x).len() == 1 && sub_group(
                    start,
                    count,
                    chunk_of(model, mem0, x).0,
                    chunk_of(model, mem0, x).1,
                );
            lemma_chunks(model, mem0, b, x);
            assert(model.scan_chunks(mem0, x)[0].0 + 8 * model.scan_chunks(mem0, x)[0].1 + b <= u64::MAX);
            assert(chunk_of(model, mem0, x).0 % 8 == 0);
        },
    }
}


/// Valid work stays valid as more objects are marked.
proof fn lemma_valid_mono(
    model: &BidirectionalObjectModel<true>,
    mem0: Map<u64, u64>,
    m1: Set<u64>,
    m2: Set<u64>,
    n: usize,
    t: TaggedWork,
)
    requires
        item_valid(model, mem0, m1, n, t),
        m1.subset_of(m2),
    ensures
        item_valid(model, mem0, m2, n, t),
{
    if let Work::Edges { start, count } = t.work {
        let objs = model.objects_spec().to_set();
        let x = choose|x: u64|
            #![trigger m1.contains(x)]
            m1.contains(x) && objs.contains(x) && model.scan_chunks(mem0, x).len() == 1 && sub_group(
                start,
                count,
                chunk_of(model, mem0, x).0,
                chunk_of(model, mem0, x).1,
            );
        assert(m2.contains(x));
    }
}

/// One step of the analysis keeps its progress; it marks an object, or
/// lightens the queue.
proof fn lemma_step(
    a: &Analysis,
    model: &BidirectionalObjectModel<true>,
    mem0: Map<u64, u64>,
    mem: Map<u64, u64>,
    q: Seq<TaggedWork>,
)
    requires
        run_inv(a, model, mem0, mem, q),
        q.len() > 0,
    ensures
        ({
            let t = q[0];
            let mem2 = work_mem(mem, t);
            let q2 = q.subrange(1, q.len() as int) + a.work_works(model, mem, t);
            let m1 = marked_objects_in(model, mem, 1);
            let m2 = marked_objects_in(model, mem2, 1);
            &&& run_inv(a, model, mem0, mem2, q2)
            &&& crate::analysis::work::newly_marks(mem, t) ==> !m1.contains(crate::analysis::work::work_object(t))
                && m2 == m1.insert(crate::analysis::work::work_object(t))
            &&& !crate::analysis::work::newly_marks(mem, t) ==> m2 == m1 && queue_weight(
                model,
                mem0,
                a.num_threads as int,
                q2,
            ) < queue_weight(model, mem0, a.num_threads as int, q)
        }),
{
    let objs = model.objects_spec().to_set();
    let b = a.next_stride_delta;
    let n = a.num_threads as int;
    let t = q[0];
    let tail = q.subrange(1, q.len() as int);
    let mem2 = work_mem(mem, t);
    let w = a.work_works(model, mem, t);
    let q2 = tail + w;
    let m1 = marked_objects_in(model, mem, 1);
    assert(item_valid(model, mem0, m1, a.num_threads, q[0]));
    assert(m1.subset_of(objs));
    crate::trace::lemma_marks_only_widen(mem0, mem, m1, objs, 1);
    assert(q =~= seq![t] + tail);
    lemma_weight_concat(model, mem0, n, seq![t], tail);
    lemma_weight_concat(model, mem0, n, tail, w);
    assert(queue_weight(model, mem0, n, seq![t]) == item_weight(model, mem0, n, t)) by {
        reveal_with_fuel(queue_weight, 2);
        assert(seq![t].drop_last() =~= Seq::<TaggedWork>::empty());
    }
    let m2 = marked_objects_in(model, mem2, 1);
    if crate::analysis::work::newly_marks(mem, t) {
        let c = crate::analysis::work::work_object(t);
        crate::distributed::lemma_mark_one(model, mem0, mem, 1, c);
        assert(m2 == m1.insert(c));
        assert(m2.subset_of(objs));
        crate::trace::lemma_marks_only_widen(mem0, mem2, m2, objs, 1);
        lemma_stable(model, mem0, mem2, b, c);
        lemma_chunks(model, mem0, b, c);
        let st = status_at(mem2, c);
        let ow = a.owner(c) as usize;
        lemma_owner_bound(a, c);
        if st == STATUS_ORDINARY {
            let nr = numrefs_at(mem2, c) as u64;
            assert(chunk_of(model, mem0, c) == (c.wrapping_add(16), nr));
            lemma_sent_valid(a, model, mem0, m2, ow, c.wrapping_add(16), nr, c);
            let sl = a.sent_loads(ow, c.wrapping_add(16), nr);
            lemma_edge_works_valid(a, model, mem0, mem2, m2, ow, sl, c);
            let ew = a.edge_works(ow, sl, mem2);
            let sw = a.sent_works(ow, c.wrapping_add(16), nr);
            assert(w == ew + sw);
            assert forall|i: int| 0 <= i < w.len() implies item_valid(model, mem0, m2, a.num_threads, #[trigger] w[i]) by {
                if i < ew.len() {
                    assert(w[i] == ew[i]);
                } else {
                    assert(w[i] == sw[i - ew.len()]);
                }
            }
        } else if st == STATUS_OBJ_ARRAY {
            lemma_owner_bound(a, c.wrapping_add(16));
            assert(item_valid(model, mem0, m2, a.num_threads, w[0]));
        } else if st == STATUS_FALLBACK {
            lemma_owner_bound(a, c.wrapping_add(8));
            assert(item_valid(model, mem0, m2, a.num_threads, w[0]));
        } else {
            assert(w.len() == 0);
        }
        assert forall|i: int| 0 <= i < q2.len() implies item_valid(model, mem0, m2, a.num_threads, #[trigger] q2[i]) by {
            if i < tail.len() {
                assert(q2[i] == q[i + 1]);
                assert(item_valid(model, mem0, m1, a.num_threads, q[i + 1]));
                lemma_valid_mono(model, mem0, m1, m2, a.num_threads, q2[i]);
            } else {
                assert(q2[i] == w[i - tail.len()]);
            }
        }
        assert forall|x: u64| #[trigger] m2.contains(x) implies trace_reachable(model, mem0, model.roots_spec(), x) by {
            if x != c {
                assert(m1.contains(x));
            }
        }
    } else {
        assert(mem2 == mem);
        assert(m2 == m1);
        match t.work {
            Work::MarkObject(c) => {
                assert(w.len() == 0);
                assert(q2 =~= tail);
            },
            Work::LoadTIB(o) => {
                lemma_stable(model, mem0, mem, b, o);
                lemma_owner_bound(a, o.wrapping_add(8));
                lemma_owner_bound(a, word_at(mem, o.wrapping_add(8)));
                assert(item_valid(model, mem0, m2, a.num_threads, w[0]));
                assert(queue_weight(model, mem0, n, w) == item_weight(model, mem0, n, w[0])) by {
                    reveal_with_fuel(queue_weight, 2);
                    assert(w.drop_last() =~= Seq::<TaggedWork>::empty());
                }
            },
            Work::ScanObject { tib_ptr, o } => {
                lemma_chunks(model, mem0, b, o);
                let s = a.owner(tib_ptr) as usize;
                let nr = model.tibs()[tib_ptr].num_refs;
                lemma_owner_bound(a, tib_ptr);
                assert(chunk_of(model, mem0, o) == (o.wrapping_add(16), nr));
                lemma_sent_valid(a, model, mem0, m2, s, o.wrapping_add(16), nr, o);
                let sl = a.sent_loads(s, o.wrapping_add(16), nr);
                lemma_edge_works_valid(a, model, mem0, mem, m2, s, sl, o);
                let ew = a.edge_works(s, sl, mem);
                let sw = a.sent_works(s, o.wrapping_add(16), nr);
                assert(w == ew + sw);
                lemma_weight_concat(model, mem0, n, ew, sw);
                assert forall|i: int| 0 <= i < w.len() implies item_valid(model, mem0, m2, a.num_threads, #[trigger] w[i]) by {
                    if i < ew.len() {
                        assert(w[i] == ew[i]);
                    } else {
                        assert(w[i] == sw[i - ew.len()]);
                    }
                }
            },
            Work::ScanRefarray(o) => {
                lemma_chunks(model, mem0, b, o);
                lemma_stable(model, mem0, mem, b, o);
                let s = a.owner(o.wrapping_add(16)) as usize;
                let len = word_at(mem, o.wrapping_add(16));
                lemma_owner_bound(a, o.wrapping_add(16));
                assert(chunk_of(model, mem0, o) == (o.wrapping_add(24), len));
                lemma_sent_valid(a, model, mem0, m2, s, o.wrapping_add(24), len, o);
                let sl = a.sent_loads(s, o.wrapping_add(24), len);
                lemma_edge_works_valid(a, model, mem0, mem, m2, s, sl, o);
                let ew = a.edge_works(s, sl, mem);
                let sw = a.sent_works(s, o.wrapping_add(24), len);
                assert(w == ew + sw);
                lemma_weight_concat(model, mem0, n, ew, sw);
                assert forall|i: int| 0 <= i < w.len() implies item_valid(model, mem0, m2, a.num_threads, #[trigger] w[i]) by {
                    if i < ew.len() {
                        assert(w[i] == ew[i]);
                    } else {
                        assert(w[i] == sw[i - ew.len()]);
                    }
                }
            },
            Work::Edges { start, count } => {
                let x = choose|x: u64|
                    #![trigger m1.contains(x)]
                    m1.contains(x) && objs.contains(x) && model.scan_chunks(mem0, x).len() == 1 && sub_group(
                        start,
                        count,
                        chunk_of(model, mem0, x).0,
                        chunk_of(model, mem0, x).1,
                    );
                lemma_chunks(model, mem0, b, x);
                assert(model.scan_chunks(mem0, x)[0].0 + 8 * model.scan_chunks(mem0, x)[0].1 + b <= u64::MAX);
                let g = group_slots(start, count);
                let pred = crate::analysis::work::owned_pred(a.owner_shift as nat, a.log_num_threads as nat, worker_id(t));
                let ol = a.owned_slots(start, count, worker_id(t));
                assert(ol == g.filter(pred));
                g.lemma_filter_len(pred);
                assert forall|i: int| 0 <= i < ol.len() implies is_slot_of(model, mem0, x, #[trigger] ol[i]) by {
                    g.lemma_filter_contains_rev(pred, ol[i]);
                    lemma_group_slot(model, mem0, x, start, count, ol[i]);
                }
                lemma_edge_works_valid(a, model, mem0, mem, m2, worker_id(t), ol, x);
            },
        }
        assert forall|i: int| 0 <= i < q2.len() implies item_valid(model, mem0, m2, a.num_threads, #[trigger] q2[i]) by {
            if i < tail.len() {
                assert(q2[i] == q[i + 1]);
            } else {
                assert(q2[i] == w[i - tail.len()]);
            }
        }
    }
}


/// Work `t` is a step of scanning object `x`.
pub open spec fn scans(t: TaggedWork, x: u64) -> bool {
    match t.work {
        Work::LoadTIB(o) => o == x,
        Work::ScanObject { o, .. } => o == x,
        Work::ScanRefarray(o) => o == x,
        _ => false,
    }
}

/// A step of scanning `x` is queued.
pub open spec fn has_scan(q: Seq<TaggedWork>, x: u64) -> bool {
    exists|i: int| 0 <= i < q.len() && scans(#[trigger] q[i], x)
}

/// The marking of `c` is queued.
pub open spec fn has_mark(q: Seq<TaggedWork>, c: u64) -> bool {
    exists|i: int| 0 <= i < q.len() && (#[trigger] q[i]).work == Work::MarkObject(c)
}

impl Analysis {
    /// Work `t` has the owner of slot `s` load it.
    pub open spec fn covers(&self, t: TaggedWork, s: u64) -> bool {
        match t.work {
            Work::Edges { start, count } => group_slots(start, count).contains(s) && self.owner(s) == worker_id(t),
            _ => false,
        }
    }

    /// The loading of slot `s` by its owner is queued.
    pub open spec fn has_cover(&self, q: Seq<TaggedWork>, s: u64) -> bool {
        exists|i: int| 0 <= i < q.len() && self.covers(#[trigger] q[i], s)
    }
}

/// Slot `s` of the heap in `mem0` is done: it is null, or what it refers to
/// is marked or about to be.
pub open spec fn slot_done(mem0: Map<u64, u64>, marked: Set<u64>, q: Seq<TaggedWork>, s: u64) -> bool {
    word_at(mem0, s) == 0 || marked.contains(word_at(mem0, s)) || has_mark(q, word_at(mem0, s))
}

/// What the analysis still owes: every marked object is being scanned, or
/// each of its slots is done or about to be loaded; every non-null root is
/// marked or about to be.
pub open spec fn owes(
    a: &Analysis,
    model: &BidirectionalObjectModel<true>,
    mem0: Map<u64, u64>,
    marked: Set<u64>,
    q: Seq<TaggedWork>,
) -> bool {
    &&& forall|x: u64|
        #[trigger] marked.contains(x) ==> has_scan(q, x) || forall|s: u64|
            #[trigger] is_slot_of(model, mem0, x, s) ==> slot_done(mem0, marked, q, s) || a.has_cover(q, s)
    &&& forall|r: int|
        0 <= r < model.roots_spec().len() && #[trigger] model.roots_spec()[r] != 0 ==> marked.contains(
            model.roots_spec()[r],
        ) || has_mark(q, model.roots_spec()[r])
}

/// Every slot of a group is loaded right away by the sender or sent to its
/// owner.
proof fn lemma_send_covers(a: &Analysis, sender: usize, start: u64, count: u64, e: u64)
    requires
        a.wf(),
        start % 8 == 0,
        start + 8 * count + a.next_stride_delta <= u64::MAX,
        group_slots(start, count).contains(e),
    ensures
        a.sent_loads(sender, start, count).contains(e) || exists|i: int|
            0 <= i < a.sent_works(sender, start, count).len() && a.covers(
                #[trigger] a.sent_works(sender, start, count)[i],
                e,
            ),
{
    let g = group_slots(start, count);
    let sw = a.sent_works(sender, start, count);
    let sl = a.sent_loads(sender, start, count);
    let i = choose|i: int| 0 <= i < count && g[i] == e;
    let pred = crate::analysis::work::owned_pred(a.owner_shift as nat, a.log_num_threads as nat, sender);
    lemma_owner_bound(a, e);
    lemma_owner_bound(a, start);
    if count == 1 {
        assert(e == start);
        if a.eager_own(sender, start) {
            assert(sl[0] == e);
        } else {
            assert(group_slots(start, 1)[0] == e);
            assert(a.covers(sw[0], e));
        }
    } else if !a.rle {
        assert(sw[i] == a.edges_work(sender, a.owner(e), e, 1));
        assert(group_slots(e, 1)[0] == e);
        assert(a.covers(sw[i], e));
    } else {
        let d = a.stride_length as int;
        let nn = a.num_threads as int;
        let p = d / 8;
        vstd::arithmetic::power2::lemma_pow2_pos(a.owner_shift as nat);
        vstd::arithmetic::power2::lemma_pow2_pos(a.log_num_threads as nat);
        vstd::arithmetic::power2::lemma_pow2_adds(3, (a.owner_shift - 3) as nat);
        vstd::arithmetic::power2::lemma_pow2_pos((a.owner_shift - 3) as nat);
        assert(vstd::arithmetic::power2::pow2(3) == 8) by {
            vstd::arithmetic::power2::lemma2_to64();
        }
        assert(d == 8 * p);
        let q0 = start as int / d;
        let qe = e as int / d;
        let k = qe - q0;
        vstd::arithmetic::div_mod::lemma_fundamental_div_mod(start as int, d);
        vstd::arithmetic::div_mod::lemma_fundamental_div_mod(e as int, d);
        assert(q0 <= qe) by {
            vstd::arithmetic::div_mod::lemma_div_is_ordered(start as int, e as int, d);
        }
        let first_owner = a.owner(start) as int;
        assert(a.owner(e) == (first_owner + k) % nn) by {
            vstd::arithmetic::div_mod::lemma_add_mod_noop(q0, k, nn);
            vstd::arithmetic::div_mod::lemma_mod_twice(q0, nn);
            vstd::arithmetic::div_mod::lemma_add_mod_noop(first_owner, k, nn);
        }
        if k % nn == 0 {
            assert(a.owner(e) == a.owner(start)) by {
                vstd::arithmetic::div_mod::lemma_add_mod_noop(first_owner, k, nn);
                vstd::arithmetic::div_mod::lemma_mod_bound(first_owner, nn);
                vstd::arithmetic::div_mod::lemma_small_mod(first_owner as nat, nn as nat);
            }
            if a.eager_own(sender, start) {
                assert(pred(e));
                g.lemma_filter_contains(pred, i);
                assert(sl.contains(e));
            } else {
                assert(sw[0] == a.edges_work(sender, a.owner(start), start, count));
                assert(a.covers(sw[0], e));
            }
        } else {
            let fit = a.fit_in_first_stride(start);
            assert(k >= 1) by {
                vstd::arithmetic::div_mod::lemma_mod_self_0(nn);
                if k == 0 {
                    vstd::arithmetic::div_mod::lemma_small_mod(0, nn as nat);
                }
            }
            assert(8 * fit == q0 * d + d - start) by {
                let s8 = start as int / 8;
                vstd::arithmetic::div_mod::lemma_fundamental_div_mod(start as int, 8);
                let z = q0 * p + p - s8;
                assert(q0 * d + d - start == z * 8) by (nonlinear_arith)
                    requires
                        d == 8 * p,
                        start == 8 * s8,
                        z == q0 * p + p - s8,
                ;
                vstd::arithmetic::div_mod::lemma_div_multiples_vanish(z, 8);
            }
            assert(qe * d <= e);
            assert(qe * d == q0 * d + d + (k - 1) * d) by (nonlinear_arith)
                requires
                    k == qe - q0,
            ;
            assert(e == start + 8 * i);
            assert(i >= fit + (k - 1) * p) by (nonlinear_arith)
                requires
                    e == start + 8 * i,
                    qe * d <= e,
                    qe * d == q0 * d + d + (k - 1) * d,
                    8 * fit == q0 * d + d - start,
                    d == 8 * p,
            ;
            let strides = (count - fit + p - 1) / p;
            assert(count > fit) by (nonlinear_arith)
                requires
                    i >= fit + (k - 1) * p,
                    k >= 1,
                    p >= 1,
                    i < count,
            ;
            assert(strides >= k) by (nonlinear_arith)
                requires
                    strides == (count - fit + p - 1) / p,
                    count - fit >= (k - 1) * p + 1,
                    p >= 1,
            ;
            let j = k % nn;
            vstd::arithmetic::div_mod::lemma_mod_bound(k, nn);
            assert(j <= k) by {
                vstd::arithmetic::div_mod::lemma_mod_decreases(k as nat, nn as nat);
            }
            let er = a.extra_receivers(start, count);
            assert(1 <= j <= er);
            let first_len: int = if a.eager_own(sender, start) { 0 } else { 1 };
            let idx = first_len + j - 1;
            assert(sw[idx] == a.edges_work(sender, ((first_owner + 1 + (j - 1)) % nn) as nat, start, count));
            assert((first_owner + 1 + (j - 1)) % nn == (first_owner + k) % nn) by {
                vstd::arithmetic::div_mod::lemma_add_mod_noop(first_owner, j, nn);
                vstd::arithmetic::div_mod::lemma_add_mod_noop(first_owner, k, nn);
                vstd::arithmetic::div_mod::lemma_mod_twice(k, nn);
            }
            assert(a.covers(sw[idx], e));
        }
    }
}

/// A loaded non-null slot has the marking of what it refers to queued.
proof fn lemma_edge_works_marks(a: &Analysis, w: usize, loads: Seq<u64>, m: Map<u64, u64>, e: u64)
    requires
        loads.contains(e),
        word_at(m, e) != 0,
    ensures
        has_mark(a.edge_works(w, loads, m), word_at(m, e)),
    decreases loads.len(),
{
    let init = loads.drop_last();
    let last = loads.last();
    let child = word_at(m, last);
    let ew0 = a.edge_works(w, init, m);
    let lw = crate::analysis::work::load_works(w, child, a.owner(child));
    assert(a.edge_works(w, loads, m) == ew0 + lw);
    if last == e {
        assert((ew0 + lw)[ew0.len() as int] == lw[0]);
    } else {
        let i = choose|i: int| 0 <= i < loads.len() && loads[i] == e;
        assert(init[i] == e);
        lemma_edge_works_marks(a, w, init, m, e);
        let j = choose|j: int| 0 <= j < ew0.len() && (#[trigger] ew0[j]).work == Work::MarkObject(word_at(m, e));
        assert((ew0 + lw)[j] == ew0[j]);
    }
}

/// The slots of a single-chunk object are the slots of its chunk.
proof fn lemma_slot_in_chunk(model: &BidirectionalObjectModel<true>, mem0: Map<u64, u64>, x: u64, s: u64)
    requires
        model.scan_chunks(mem0, x).len() == 1,
        is_slot_of(model, mem0, x, s),
        chunk_of(model, mem0, x).0 + 8 * chunk_of(model, mem0, x).1 <= u64::MAX,
    ensures
        group_slots(chunk_of(model, mem0, x).0, chunk_of(model, mem0, x).1).contains(s),
{
    let (cs, cc) = chunk_of(model, mem0, x);
    let (c, j) = choose|c: int, j: int|
        0 <= c < model.scan_chunks(mem0, x).len() && 0 <= j < model.scan_chunks(mem0, x)[c].1 && s
            == #[trigger] chunk_slot(model.scan_chunks(mem0, x)[c], j);
    assert(c == 0);
    assert(group_slots(cs, cc)[j] == s);
}

/// Sending the chunk of a marked object loads or queues the loading of
/// each of its slots; what is loaded is done.
proof fn lemma_send_done(
    a: &Analysis,
    model: &BidirectionalObjectModel<true>,
    mem0: Map<u64, u64>,
    m: Map<u64, u64>,
    marked: Set<u64>,
    tail: Seq<TaggedWork>,
    sender: usize,
    x: u64,
    w: Seq<TaggedWork>,
)
    requires
        a.wf(),
        analysis_heap(model, mem0, a.next_stride_delta),
        mark_bytes_only(mem0, m, model.objects_spec().to_set()),
        model.objects_spec().to_set().contains(x),
        model.scan_chunks(mem0, x).len() == 1,
        w == a.edge_works(
            sender,
            a.sent_loads(sender, chunk_of(model, mem0, x).0, chunk_of(model, mem0, x).1),
            m,
        ) + a.sent_works(sender, chunk_of(model, mem0, x).0, chunk_of(model, mem0, x).1),
    ensures
        forall|s: u64| #[trigger]
            is_slot_of(model, mem0, x, s) ==> slot_done(mem0, marked, tail + w, s) || a.has_cover(tail + w, s),
{
    let q2 = tail + w;
    let (cs, cc) = chunk_of(model, mem0, x);
    let b = a.next_stride_delta;
    lemma_chunks(model, mem0, b, x);
    assert(model.scan_chunks(mem0, x)[0].0 + 8 * model.scan_chunks(mem0, x)[0].1 + b <= u64::MAX);
    lemma_stable(model, mem0, m, b, x);
    let sl = a.sent_loads(sender, cs, cc);
    let ew = a.edge_works(sender, sl, m);
    let sw = a.sent_works(sender, cs, cc);
    let off = tail.len() as int;
    assert forall|s: u64| #[trigger]
        is_slot_of(model, mem0, x, s) implies slot_done(mem0, marked, q2, s) || a.has_cover(q2, s) by {
        lemma_slot_in_chunk(model, mem0, x, s);
        lemma_send_covers(a, sender, cs, cc, s);
        if sl.contains(s) {
            if word_at(mem0, s) != 0 {
                assert(word_at(m, s) == word_at(mem0, s));
                lemma_edge_works_marks(a, sender, sl, m, s);
                let j = choose|j: int| 0 <= j < ew.len() && (#[trigger] ew[j]).work == Work::MarkObject(word_at(m, s));
                assert(w[j] == ew[j]);
                assert(q2[off + j] == w[j]);
            }
        } else {
            let j = choose|j: int| 0 <= j < sw.len() && a.covers(#[trigger] sw[j], s);
            assert(w[ew.len() + j] == sw[j]);
            assert(q2[off + ew.len() + j] == w[ew.len() + j]);
        }
    }
}

/// The facts about one step that the accounting of what it owes needs.
pub open spec fn step_facts(
    a: &Analysis,
    model: &BidirectionalObjectModel<true>,
    mem0: Map<u64, u64>,
    mem: Map<u64, u64>,
    q: Seq<TaggedWork>,
) -> bool {
    let objs = model.objects_spec().to_set();
    let t = q[0];
    let mem2 = work_mem(mem, t);
    let m1 = marked_objects_in(model, mem, 1);
    let m2 = marked_objects_in(model, mem2, 1);
    &&& run_inv(a, model, mem0, mem, q)
    &&& owes(a, model, mem0, m1, q)
    &&& q.len() > 0
    &&& m1.subset_of(m2)
    &&& m2.subset_of(objs)
    &&& mark_bytes_only(mem0, mem, objs)
    &&& mark_bytes_only(mem0, mem2, objs)
    &&& crate::analysis::work::newly_marks(mem, t) ==> m2 == m1.insert(crate::analysis::work::work_object(t))
    &&& !crate::analysis::work::newly_marks(mem, t) ==> m2 == m1
}

proof fn lemma_step_facts(
    a: &Analysis,
    model: &BidirectionalObjectModel<true>,
    mem0: Map<u64, u64>,
    mem: Map<u64, u64>,
    q: Seq<TaggedWork>,
)
    requires
        run_inv(a, model, mem0, mem, q),
        owes(a, model, mem0, marked_objects_in(model, mem, 1), q),
        q.len() > 0,
    ensures
        step_facts(a, model, mem0, mem, q),
{
    let objs = model.objects_spec().to_set();
    let t = q[0];
    let mem2 = work_mem(mem, t);
    let m1 = marked_objects_in(model, mem, 1);
    let m2 = marked_objects_in(model, mem2, 1);
    lemma_step(a, model, mem0, mem, q);
    assert(m1.subset_of(objs));
    crate::trace::lemma_marks_only_widen(mem0, mem, m1, objs, 1);
    assert(m2.subset_of(objs));
    crate::trace::lemma_marks_only_widen(mem0, mem2, m2, objs, 1);
}

/// A marking or a done slot of `q` carries over to the next queue.
proof fn lemma_marks_carry(
    a: &Analysis,
    model: &BidirectionalObjectModel<true>,
    mem0: Map<u64, u64>,
    mem: Map<u64, u64>,
    q: Seq<TaggedWork>,
)
    requires
        step_facts(a, model, mem0, mem, q),
    ensures
        ({
            let t = q[0];
            let q2 = q.subrange(1, q.len() as int) + a.work_works(model, mem, t);
            let m1 = marked_objects_in(model, mem, 1);
            let m2 = marked_objects_in(model, work_mem(mem, t), 1);
            &&& forall|c: u64| #[trigger] has_mark(q, c) ==> m2.contains(c) || has_mark(q2, c)
            &&& forall|s: u64| #[trigger] slot_done(mem0, m1, q, s) ==> slot_done(mem0, m2, q2, s)
        }),
{
    let objs = model.objects_spec().to_set();
    let t = q[0];
    let tail = q.subrange(1, q.len() as int);
    let q2 = tail + a.work_works(model, mem, t);
    let mem2 = work_mem(mem, t);
    let m1 = marked_objects_in(model, mem, 1);
    let m2 = marked_objects_in(model, mem2, 1);
    assert forall|c: u64| #[trigger] has_mark(q, c) implies m2.contains(c) || has_mark(q2, c) by {
        let i = choose|i: int| 0 <= i < q.len() && (#[trigger] q[i]).work == Work::MarkObject(c);
        if i == 0 {
            assert(item_valid(model, mem0, m1, a.num_threads, q[0]));
            assert(objs.contains(c));
            if !is_marked_in(mem, c, 1) {
                crate::header::lemma_get_set_same(word_at(mem, c), 1, MARK_BYTE_OFFSET as int);
            }
            assert(is_marked_in(mem2, c, 1));
        } else {
            assert(q2[i - 1] == q[i]);
        }
    }
    assert forall|s: u64| #[trigger] slot_done(mem0, m1, q, s) implies slot_done(mem0, m2, q2, s) by {
        if word_at(mem0, s) != 0 && !m1.contains(word_at(mem0, s)) {
            assert(has_mark(q, word_at(mem0, s)));
        }
    }
}

/// After a step, the object the step is about owes nothing it cannot pay:
/// a newly marked object whose header lists its slots, or an object whose
/// scanning step sent its slots, has each slot done or queued for loading.
proof fn lemma_sent_object(
    a: &Analysis,
    model: &BidirectionalObjectModel<true>,
    mem0: Map<u64, u64>,
    mem: Map<u64, u64>,
    q: Seq<TaggedWork>,
)
    requires
        step_facts(a, model, mem0, mem, q),
        q[0].work is ScanObject || q[0].work is ScanRefarray || (crate::analysis::work::newly_marks(mem, q[0])
            && status_at(mem0, crate::analysis::work::work_object(q[0])) == STATUS_ORDINARY),
    ensures
        ({
            let t = q[0];
            let x0 = crate::analysis::work::work_object(t);
            let q2 = q.subrange(1, q.len() as int) + a.work_works(model, mem, t);
            let m2 = marked_objects_in(model, work_mem(mem, t), 1);
            forall|s: u64| #[trigger]
                is_slot_of(model, mem0, x0, s) ==> slot_done(mem0, m2, q2, s) || a.has_cover(q2, s)
        }),
{
    let b = a.next_stride_delta;
    let t = q[0];
    let x0 = crate::analysis::work::work_object(t);
    let tail = q.subrange(1, q.len() as int);
    let w = a.work_works(model, mem, t);
    let mem2 = work_mem(mem, t);
    let m1 = marked_objects_in(model, mem, 1);
    let m2 = marked_objects_in(model, mem2, 1);
    assert(item_valid(model, mem0, m1, a.num_threads, q[0]));
    assert(model.objects_spec().to_set().contains(x0));
    lemma_chunks(model, mem0, b, x0);
    lemma_stable(model, mem0, mem, b, x0);
    lemma_stable(model, mem0, mem2, b, x0);
    match t.work {
        Work::ScanObject { tib_ptr, o } => {
            let l = a.owner(tib_ptr) as usize;
            assert(chunk_of(model, mem0, o) == (o.wrapping_add(16), model.tibs()[tib_ptr].num_refs));
            lemma_send_done(a, model, mem0, mem, m2, tail, l, o, w);
        },
        Work::ScanRefarray(o) => {
            let l = a.owner(o.wrapping_add(16)) as usize;
            assert(chunk_of(model, mem0, o) == (o.wrapping_add(24), word_at(mem, o.wrapping_add(16))));
            lemma_send_done(a, model, mem0, mem, m2, tail, l, o, w);
        },
        Work::MarkObject(c) => {
            let ow = a.owner(c) as usize;
            assert(chunk_of(model, mem0, c) == (c.wrapping_add(16), numrefs_at(mem2, c) as u64));
            lemma_send_done(a, model, mem0, mem2, m2, tail, ow, c, w);
        },
        _ => {},
    }
}

/// After a step, an already marked object that owed nothing but loads
/// still owes only what the next queue pays.
proof fn lemma_old_slot(
    a: &Analysis,
    model: &BidirectionalObjectModel<true>,
    mem0: Map<u64, u64>,
    mem: Map<u64, u64>,
    q: Seq<TaggedWork>,
    x: u64,
    s: u64,
)
    requires
        a.wf(),
        analysis_heap(model, mem0, a.next_stride_delta),
        mark_bytes_only(mem0, mem, model.objects_spec().to_set()),
        model.objects_spec().to_set().contains(x),
        q.len() > 0,
        is_slot_of(model, mem0, x, s),
        a.has_cover(q, s),
    ensures
        ({
            let t = q[0];
            let q2 = q.subrange(1, q.len() as int) + a.work_works(model, mem, t);
            let m2 = marked_objects_in(model, work_mem(mem, t), 1);
            slot_done(mem0, m2, q2, s) || a.has_cover(q2, s)
        }),
{
    let b = a.next_stride_delta;
    let t = q[0];
    let tail = q.subrange(1, q.len() as int);
    let w = a.work_works(model, mem, t);
    let q2 = tail + w;
    let i = choose|i: int| 0 <= i < q.len() && a.covers(#[trigger] q[i], s);
    if i > 0 {
        assert(q2[i - 1] == q[i]);
    } else {
        if let Work::Edges { start, count } = t.work {
            let pred = crate::analysis::work::owned_pred(a.owner_shift as nat, a.log_num_threads as nat, worker_id(t));
            let g = group_slots(start, count);
            let k = choose|k: int| 0 <= k < g.len() && g[k] == s;
            g.lemma_filter_contains(pred, k);
            let ol = a.owned_slots(start, count, worker_id(t));
            lemma_stable(model, mem0, mem, b, x);
            if word_at(mem0, s) != 0 {
                lemma_edge_works_marks(a, worker_id(t), ol, mem, s);
                let j = choose|j: int| 0 <= j < w.len() && (#[trigger] w[j]).work == Work::MarkObject(word_at(mem, s));
                assert(q2[tail.len() + j] == w[j]);
            }
        }
    }
}

/// One step of the analysis keeps what it owes.
#[verifier::spinoff_prover]
#[verifier::rlimit(100)]
proof fn lemma_step_owes(
    a: &Analysis,
    model: &BidirectionalObjectModel<true>,
    mem0: Map<u64, u64>,
    mem: Map<u64, u64>,
    q: Seq<TaggedWork>,
)
    requires
        run_inv(a, model, mem0, mem, q),
        owes(a, model, mem0, marked_objects_in(model, mem, 1), q),
        q.len() > 0,
    ensures
        owes(
            a,
            model,
            mem0,
            marked_objects_in(model, work_mem(mem, q[0]), 1),
            q.subrange(1, q.len() as int) + a.work_works(model, mem, q[0]),
        ),
{
    let b = a.next_stride_delta;
    let t = q[0];
    let tail = q.subrange(1, q.len() as int);
    let w = a.work_works(model, mem, t);
    let q2 = tail + w;
    let mem2 = work_mem(mem, t);
    let m1 = marked_objects_in(model, mem, 1);
    let m2 = marked_objects_in(model, mem2, 1);
    lemma_step_facts(a, model, mem0, mem, q);
    lemma_marks_carry(a, model, mem0, mem, q);
    let x0 = crate::analysis::work::work_object(t);
    let newly = crate::analysis::work::newly_marks(mem, t);
    assert forall|x: u64| #[trigger] m2.contains(x) implies has_scan(q2, x) || forall|s: u64| #[trigger]
        is_slot_of(model, mem0, x, s) ==> slot_done(mem0, m2, q2, s) || a.has_cover(q2, s) by {
        if newly && x == x0 {
            assert(item_valid(model, mem0, m1, a.num_threads, q[0]));
            lemma_chunks(model, mem0, b, x0);
            lemma_stable(model, mem0, mem2, b, x0);
            let st = status_at(mem0, x0);
            if st == STATUS_ORDINARY {
                lemma_sent_object(a, model, mem0, mem, q);
            } else if st == STATUS_OBJ_ARRAY || st == STATUS_FALLBACK {
                assert(scans(w[0], x));
                assert(q2[tail.len() as int] == w[0]);
            } else {
                assert forall|s: u64| #[trigger] is_slot_of(model, mem0, x, s) implies slot_done(mem0, m2, q2, s)
                    || a.has_cover(q2, s) by {}
            }
        } else {
            assert(m1.contains(x));
            if has_scan(q, x) {
                let i = choose|i: int| 0 <= i < q.len() && scans(#[trigger] q[i], x);
                if i > 0 {
                    assert(q2[i - 1] == q[i]);
                } else if t.work is LoadTIB {
                    assert(scans(w[0], x));
                    assert(q2[tail.len() as int] == w[0]);
                } else {
                    lemma_sent_object(a, model, mem0, mem, q);
                }
            } else {
                assert forall|s: u64| #[trigger] is_slot_of(model, mem0, x, s) implies slot_done(mem0, m2, q2, s)
                    || a.has_cover(q2, s) by {
                    if !slot_done(mem0, m1, q, s) {
                        lemma_old_slot(a, model, mem0, mem, q, x, s);
                    }
                }
            }
        }
    }
    assert forall|r: int|
        0 <= r < model.roots_spec().len() && #[trigger] model.roots_spec()[r] != 0 implies m2.contains(
        model.roots_spec()[r],
    ) || has_mark(q2, model.roots_spec()[r]) by {
        if !m1.contains(model.roots_spec()[r]) {
            assert(has_mark(q, model.roots_spec()[r]));
        }
    }
}

/// Two analyses with the same parameters send alike.
proof fn lemma_send_params(a: &Analysis, b: &Analysis, sender: usize, start: u64, count: u64)
    requires
        a.same_params(b),
    ensures
        a.sent_works(sender, start, count) == b.sent_works(sender, start, count),
        a.sent_loads(sender, start, count) == b.sent_loads(sender, start, count),
{
    assert(a.sent_works(sender, start, count) =~= b.sent_works(sender, start, count));
    assert(a.sent_loads(sender, start, count) =~= b.sent_loads(sender, start, count));
}

/// Two analyses with the same parameters create the same work.
#[verifier::rlimit(40)]
proof fn lemma_work_params(
    a: &Analysis,
    b: &Analysis,
    model: &BidirectionalObjectModel<true>,
    m: Map<u64, u64>,
    t: TaggedWork,
)
    requires
        a.same_params(b),
    ensures
        a.work_works(model, m, t) == b.work_works(model, m, t),
{
    let m2 = work_mem(m, t);
    match t.work {
        Work::MarkObject(o) => {
            let ow = a.owner(o) as usize;
            lemma_send_params(a, b, ow, o.wrapping_add(16), numrefs_at(m2, o) as u64);
            crate::analysis::work::lemma_params_agree(a, b, ow, ow, a.mark_loads(m2, o), m2, a.stats.slot_counts);
            assert(a.mark_works(m2, o) == b.mark_works(m2, o));
        },
        Work::LoadTIB(_) => {},
        Work::ScanObject { tib_ptr, o } => {
            let l = a.owner(tib_ptr) as usize;
            lemma_send_params(a, b, l, o.wrapping_add(16), model.tibs()[tib_ptr].num_refs);
            crate::analysis::work::lemma_params_agree(a, b, l, l, a.work_loads(model, m, t), m, a.stats.slot_counts);
        },
        Work::ScanRefarray(o) => {
            let l = a.owner(o.wrapping_add(16)) as usize;
            lemma_send_params(a, b, l, o.wrapping_add(24), word_at(m, o.wrapping_add(16)));
            crate::analysis::work::lemma_params_agree(a, b, l, l, a.work_loads(model, m, t), m, a.stats.slot_counts);
        },
        Work::Edges { start, count } => {
            let l = worker_id(t);
            assert(a.owned_slots(start, count, l) =~= b.owned_slots(start, count, l));
            crate::analysis::work::lemma_params_agree(a, b, l, l, a.work_loads(model, m, t), m, a.stats.slot_counts);
        },
    }
}

impl Analysis {
    /// Runs the analysis over the heap that `model` restored in `mem`: the
    /// roots are marked by messages from the environment, and then the
    /// queued work is done, front first, until none is left.  Every object
    /// reachable from the roots ends marked, and no other.
    pub fn run(&mut self, model: &BidirectionalObjectModel<true>, mem: &mut TargetMemory)
        requires
            old(self).wf(),
            old(self).work_queue@.len() == 0,
            analysis_heap(model, old(mem)@, old(self).next_stride_delta),
        ensures
            final(self).wf(),
            final(self).same_params(old(self)),
            final(self).work_queue@.len() == 0,
            forall|o: u64|
                #[trigger] trace_reachable(model, old(mem)@, model.roots_spec(), o) <==> (model.objects_spec().contains(o)
                    && is_marked_in(final(mem)@, o, 1)),
            marks_only(old(mem)@, final(mem)@, reachable_objects(model, old(mem)@, model.roots_spec()), 1),
            final(self).stats.object_counts.marked_objects == sat_add(
                old(self).stats.object_counts.marked_objects,
                reachable_objects(model, old(mem)@, model.roots_spec()).len() as int,
            ),
    {
        let ghost mem0 = mem@;
        let ghost s0 = *self;
        let ghost objs = model.objects_spec().to_set();
        let ghost n = self.num_threads as int;
        let roots = model.roots();
        proof {
            vstd::seq_lib::seq_to_set_is_finite(model.objects_spec());
            assert(marked_objects_in(model, mem0, 1) =~= Set::<u64>::empty());
        }
        let mut k: usize = 0;
        while k < roots.len()
            invariant
                self.wf(),
                self.same_params(&s0),
                s0.wf(),
                mem@ == mem0,
                roots@ == model.roots_spec(),
                analysis_heap(model, mem0, s0.next_stride_delta),
                marked_objects_in(model, mem0, 1) == Set::<u64>::empty(),
                k <= roots@.len(),
                forall|i: int| 0 <= i < self.work_queue@.len() ==> item_valid(
                    model,
                    mem0,
                    Set::<u64>::empty(),
                    s0.num_threads,
                    #[trigger] self.work_queue@[i],
                ),
                forall|r: int| 0 <= r < k && #[trigger] roots@[r] != 0 ==> has_mark(self.work_queue@, roots@[r]),
                self.stats.object_counts == s0.stats.object_counts,
            decreases roots@.len() - k,
        {
            let root = roots[k];
            self.stats.slot_counts.slots = self.stats.slot_counts.slots.saturating_add(1);
            if root != 0 {
                self.stats.slot_counts.non_empty_root_slots = self.stats.slot_counts.non_empty_root_slots.saturating_add(
                    1,
                );
                let ghost before = self.work_queue@;
                self.create_root_work(root);
                proof {
                    lemma_trace_root(model, mem0, model.roots_spec(), k as int);
                    lemma_owner_bound(&s0, root);
                    assert forall|i: int| 0 <= i < self.work_queue@.len() implies item_valid(
                        model,
                        mem0,
                        Set::<u64>::empty(),
                        s0.num_threads,
                        #[trigger] self.work_queue@[i],
                    ) by {
                        if i < before.len() {
                            assert(self.work_queue@[i] == before[i]);
                        }
                    }
                    assert(self.work_queue@[before.len() as int].work == Work::MarkObject(root));
                    assert forall|r: int| 0 <= r < k + 1 && #[trigger] roots@[r] != 0 implies has_mark(
                        self.work_queue@,
                        roots@[r],
                    ) by {
                        if r < k {
                            let i = choose|i: int| 0 <= i < before.len() && (#[trigger] before[i]).work == Work::MarkObject(roots@[r]);
                            assert(self.work_queue@[i] == before[i]);
                        }
                    }
                }
            } else {
                self.stats.slot_counts.empty_root_slots = self.stats.slot_counts.empty_root_slots.saturating_add(1);
            }
            k += 1;
        }
        proof {
            assert(marks_only(mem0, mem@, marked_objects_in(model, mem@, 1), 1));
            assert(run_inv(&s0, model, mem0, mem@, self.work_queue@));
            assert(owes(&s0, model, mem0, marked_objects_in(model, mem@, 1), self.work_queue@));
            assert(sat_add(s0.stats.object_counts.marked_objects, 0) == s0.stats.object_counts.marked_objects);
        }
        loop
            invariant
                self.wf(),
                self.same_params(&s0),
                objs == model.objects_spec().to_set(),
                objs.finite(),
                n == s0.num_threads,
                run_inv(&s0, model, mem0, mem@, self.work_queue@),
                owes(&s0, model, mem0, marked_objects_in(model, mem@, 1), self.work_queue@),
                self.stats.object_counts.marked_objects == sat_add(
                    s0.stats.object_counts.marked_objects,
                    marked_objects_in(model, mem@, 1).len() as int,
                ),
            ensures
                self.wf(),
                self.same_params(&s0),
                run_inv(&s0, model, mem0, mem@, self.work_queue@),
                owes(&s0, model, mem0, marked_objects_in(model, mem@, 1), self.work_queue@),
                self.stats.object_counts.marked_objects == sat_add(
                    s0.stats.object_counts.marked_objects,
                    marked_objects_in(model, mem@, 1).len() as int,
                ),
                self.work_queue@.len() == 0,
            decreases objs.len() - marked_objects_in(model, mem@, 1).len(), queue_weight(
                model,
                mem0,
                n,
                self.work_queue@,
            ),
        {
            let ghost q = self.work_queue@;
            let ghost m = mem@;
            proof {
                let marked = marked_objects_in(model, m, 1);
                assert(marked.subset_of(objs));
                vstd::set_lib::lemma_len_subset(marked, objs);
                lemma_weight_nonneg(model, mem0, n, q);
            }
            match self.work_queue.pop_front() {
                Some(t) => {
                    proof {
                        lemma_ready(&s0, model, mem0, m, q, 0);
                        lemma_step(&s0, model, mem0, m, q);
                        lemma_step_owes(&s0, model, mem0, m, q);
                    }
                    let ghost before = *self;
                    self.do_work(t, model, mem);
                    proof {
                        lemma_work_params(&before, &s0, model, m, t);
                        assert(self.work_queue@ == q.subrange(1, q.len() as int) + s0.work_works(model, m, t));
                        let m1 = marked_objects_in(model, m, 1);
                        let m2 = marked_objects_in(model, mem@, 1);
                        vstd::set_lib::lemma_len_subset(m2, objs);
                        lemma_weight_nonneg(model, mem0, n, self.work_queue@);
                        if crate::analysis::work::newly_marks(m, t) {
                            assert(m2.len() == m1.len() + 1);
                            vstd::set_lib::lemma_len_subset(m1, objs);
                        }
                    }
                },
                None => {
                    break;
                },
            }
        }
        proof {
            let marked = marked_objects_in(model, mem@, 1);
            assert(marked.subset_of(objs));
            assert forall|x: u64, c: u64| marked.contains(x) && #[trigger] points_to(model, mem0, x, c) implies marked.contains(
                c,
            ) by {
                let sl = choose|sl: u64| #[trigger] is_slot_of(model, mem0, x, sl) && word_at(mem0, sl) == c;
                assert(!has_scan(self.work_queue@, x));
                assert(slot_done(mem0, marked, self.work_queue@, sl) || s0.has_cover(self.work_queue@, sl));
            }
            assert forall|r: int|
                0 <= r < model.roots_spec().len() && #[trigger] model.roots_spec()[r] != 0 implies marked.contains(
                model.roots_spec()[r],
            ) by {
                assert(!has_mark(self.work_queue@, model.roots_spec()[r]));
            }
            crate::queue_trace::lemma_closure_exact(model, mem0, mem@, 1, marked);
        }
    }
}

} // verus!
