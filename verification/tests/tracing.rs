use hwgc_soft::analysis::{depth_histogram_of, utilization_ticks};
use hwgc_soft::cli::TracingLoopChoice;
use hwgc_soft::distributed::{get_owner_thread, transitive_closure_distributed_node_objref};
use hwgc_soft::heapdump::{HeapDump, LeafObjectArrayHeapDump, LinkedListHeapDump};
use hwgc_soft::mark::{trace_iterations, transitive_closure, verify_mark};
use hwgc_soft::memif::{BumpAllocationArena, NoOpMemoryInterface};
use hwgc_soft::object_model::openjdk::OpenJDKObjectModel;
use hwgc_soft::queue_trace::{slot_words, transitive_closure_edge_objref, transitive_closure_node_objref};
use hwgc_soft::shape_cache::{transitive_closure_shape_cache, ShapeCacheStats, ShapeLruCache};
use hwgc_soft::simulate::activity::{activity_segments, ActivitySegment};
use hwgc_soft::simulate::ideal_trace_utilization::{simulate_ideal_trace_utilization, ITUProcessor};
use hwgc_soft::target_memory::TargetMemory;

fn restore(hd: &HeapDump) -> (OpenJDKObjectModel<false>, TargetMemory) {
    let mut model = OpenJDKObjectModel::<false>::new();
    let mut mem = TargetMemory::new();
    let mut tib_arena = BumpAllocationArena::new(0x1000, 0x1000, 1 << 16, 8);
    model.restore_tibs(hd, &mut tib_arena);
    model.restore_objects(hd, &NoOpMemoryInterface::new(), &mut mem, &mut tib_arena);
    (model, mem)
}

fn list(n: usize) -> HeapDump {
    LinkedListHeapDump::new(&format!("linked_list_{}", n)).to_heapdump()
}

fn array_with_dropped_leaf() -> HeapDump {
    let mut hd = LeafObjectArrayHeapDump::new("objarray_3").to_heapdump();
    hd.objects[0].edges[2].objref = 0;
    hd
}

#[test]
fn node_objref_closure_marks_the_list() {
    let hd = list(5);
    let (m, mut mem) = restore(&hd);
    let stats = transitive_closure_node_objref(1, &m, &mut mem);
    assert_eq!(stats.marked_objects, 5);
    // One slot per root and one per list node.
    assert_eq!(stats.slots, 1 + 5);
    assert_eq!(stats.non_empty_slots, 1 + 4);
    assert!(verify_mark(1, &m, &mem).is_empty());
}

#[test]
fn edge_objref_closure_skips_unreachable_objects() {
    let hd = array_with_dropped_leaf();
    let (m, mut mem) = restore(&hd);
    let stats = transitive_closure_edge_objref(1, &m, &mut mem);
    assert_eq!(stats.marked_objects, 3);
    assert_eq!(stats.slots, 1 + 3);
    assert_eq!(stats.non_empty_slots, 1 + 2);
    assert_eq!(verify_mark(1, &m, &mem), vec![hd.objects[3].start]);
}

#[test]
fn closure_dispatch() {
    for l in [
        TracingLoopChoice::EdgeSlot,
        TracingLoopChoice::EdgeObjref,
        TracingLoopChoice::NodeObjref,
        TracingLoopChoice::DistributedNodeObjref,
        TracingLoopChoice::ShapeCache,
    ] {
        let hd = list(4);
        let (m, mut mem) = restore(&hd);
        let mut sc = ShapeLruCache::new(16);
        let stats = transitive_closure(l, 1, &m, &mut mem, &mut sc).unwrap();
        assert_eq!(stats.marked_objects, 4);
        assert!(verify_mark(1, &m, &mem).is_empty());
    }
    let hd = list(4);
    let (m, mut mem) = restore(&hd);
    let mut sc = ShapeLruCache::new(16);
    assert!(transitive_closure(TracingLoopChoice::WP, 1, &m, &mut mem, &mut sc).is_none());
    assert_eq!(verify_mark(1, &m, &mem).len(), 4);
}

#[test]
fn slot_words_reads_references() {
    let hd = list(3);
    let (m, mem) = restore(&hd);
    let first = hd.objects[0].start;
    assert_eq!(slot_words(&m, &mem, first), vec![hd.objects[1].start]);
    let last = hd.objects[2].start;
    assert_eq!(slot_words(&m, &mem, last), vec![0]);
}

#[test]
fn ideal_trace_utilization_on_a_list() {
    let hd = list(4);
    let (m, mut mem) = restore(&hd);
    let stats = simulate_ideal_trace_utilization(2, &m, &mut mem);
    assert_eq!(stats.processors, 2);
    assert_eq!(stats.marked_objects, 4);
    // One busy tick for the root and one for each of the three references.
    assert_eq!(stats.busy_ticks, 4);
    // A list leaves one processor idle: one object per tick.
    assert_eq!(stats.ticks, 4);
    assert!(verify_mark(1, &m, &mem).is_empty());
}

#[test]
fn ideal_trace_utilization_on_an_array() {
    let hd = LeafObjectArrayHeapDump::new("objarray_3").to_heapdump();
    let (m, mut mem) = restore(&hd);
    let stats = simulate_ideal_trace_utilization(2, &m, &mut mem);
    assert_eq!(stats.marked_objects, 4);
    assert_eq!(stats.busy_ticks, 4);
    // The array first, then its three leaves two at a time.
    assert_eq!(stats.ticks, 3);
}

#[test]
fn itu_processor_starts_idle() {
    let p = ITUProcessor::new();
    assert_eq!(p.busy_ticks, 0);
    assert_eq!(p.marked_objects, 0);
}

#[test]
fn utilization_ticks_in_rounds() {
    let hd = LeafObjectArrayHeapDump::new("objarray_3").to_heapdump();
    let (m, mut mem) = restore(&hd);
    // Rounds of two: the array, then two leaves, then the last leaf.
    assert_eq!(utilization_ticks(2, &m, &mut mem), (6, 4));
    let hd = list(3);
    let (m, mut mem) = restore(&hd);
    assert_eq!(utilization_ticks(4, &m, &mut mem), (12, 3));
}

#[test]
fn activity_segments_fill_the_gaps() {
    let segs = activity_segments(&vec![(3, 4), (8, 8)], Some(10), 12);
    assert_eq!(
        segs,
        vec![
            ActivitySegment { busy: true, begin: 0, end: 2 },
            ActivitySegment { busy: false, begin: 3, end: 4 },
            ActivitySegment { busy: true, begin: 5, end: 7 },
            ActivitySegment { busy: false, begin: 8, end: 8 },
            ActivitySegment { busy: true, begin: 9, end: 9 },
            ActivitySegment { busy: false, begin: 10, end: 12 },
        ]
    );
    let segs = activity_segments(&vec![(0, 1)], None, 5);
    assert_eq!(
        segs,
        vec![
            ActivitySegment { busy: false, begin: 0, end: 1 },
            ActivitySegment { busy: true, begin: 2, end: 5 },
        ]
    );
    assert_eq!(activity_segments(&vec![], None, 0), vec![]);
}

#[test]
fn repeated_tracing_flips_the_mark_sense() {
    for (iterations, sense) in [(1usize, 1u8), (2, 0), (3, 1)] {
        let hd = list(5);
        let (m, mut mem) = restore(&hd);
        let (stats, mark_sense) = trace_iterations(TracingLoopChoice::NodeObjref, iterations, &m, &mut mem, &mut ShapeLruCache::new(4));
        assert_eq!(mark_sense, sense);
        assert_eq!(stats.unwrap().marked_objects, 5);
        assert!(verify_mark(sense, &m, &mem).is_empty());
    }
    let hd = list(2);
    let (m, mut mem) = restore(&hd);
    let (stats, mark_sense) = trace_iterations(TracingLoopChoice::EdgeSlot, 0, &m, &mut mem, &mut ShapeLruCache::new(4));
    assert!(stats.is_none());
    assert_eq!(mark_sense, 0);
}

#[test]
fn depth_histogram_of_list_and_array() {
    let hd = list(4);
    let (m, mut mem) = restore(&hd);
    let hist = depth_histogram_of(&m, &mut mem);
    assert_eq!(hist.len(), 4);
    for d in 0..4u64 {
        assert_eq!(hist[&d], 1);
    }
    assert!(verify_mark(1, &m, &mem).is_empty());
    let hd = LeafObjectArrayHeapDump::new("objarray_3").to_heapdump();
    let (m, mut mem) = restore(&hd);
    let hist = depth_histogram_of(&m, &mut mem);
    assert_eq!(hist.len(), 2);
    assert_eq!(hist[&0], 1);
    assert_eq!(hist[&1], 3);
}

#[test]
fn distributed_closure_marks_the_list() {
    let hd = list(5);
    let (m, mut mem) = restore(&hd);
    let stats = transitive_closure_distributed_node_objref(1, &m, &mut mem);
    assert_eq!(stats.marked_objects, 5);
    assert_eq!(stats.slots, 1 + 5);
    assert_eq!(stats.non_empty_slots, 1 + 4);
    // A reference goes to another thread when its target has another owner.
    let mut sends = 0;
    for w in hd.objects.windows(2) {
        if get_owner_thread(w[0].start) != get_owner_thread(w[1].start) {
            sends += 1;
        }
    }
    assert_eq!(stats.sends, sends);
    assert!(verify_mark(1, &m, &mem).is_empty());
}

#[test]
fn distributed_closure_skips_unreachable_objects() {
    let hd = array_with_dropped_leaf();
    let (m, mut mem) = restore(&hd);
    let stats = transitive_closure_distributed_node_objref(1, &m, &mut mem);
    assert_eq!(stats.marked_objects, 3);
    assert_eq!(verify_mark(1, &m, &mem), vec![hd.objects[3].start]);
}

#[test]
fn owner_thread_by_cache_line() {
    assert_eq!(get_owner_thread(0), 0);
    assert_eq!(get_owner_thread(0x40), 1);
    assert_eq!(get_owner_thread(0x1c0), 7);
    assert_eq!(get_owner_thread(0x200), 0);
    assert_eq!(get_owner_thread(0x7f), 1);
}

#[test]
fn shape_cache_counts_lookups() {
    // Without alignment encoding every marked object needs a TIB lookup;
    // the four list nodes share one TIB.
    let hd = list(4);
    let (m, mut mem) = restore(&hd);
    let mut sc = ShapeLruCache::new(2);
    let stats = transitive_closure_shape_cache(1, &m, &mut mem, &mut sc);
    assert_eq!(stats.marked_objects, 4);
    assert_eq!(stats.slots, 0);
    assert_eq!(stats.shape_cache_stats.compulsory_misses_instance, 1);
    assert_eq!(stats.shape_cache_stats.hits, 3);
    assert_eq!(stats.shape_cache_stats.capacity_misses, 0);
    assert_eq!(sc.stats, ShapeCacheStats::new());
    assert_eq!(sc.tib_seen.len(), 1);
    assert!(verify_mark(1, &m, &mem).is_empty());
}

#[test]
fn shape_cache_misses_for_lack_of_room() {
    // The array and its leaves have two TIBs; with room for one they evict
    // each other.
    let hd = LeafObjectArrayHeapDump::new("objarray_3").to_heapdump();
    let (m, mut mem) = restore(&hd);
    let mut sc = ShapeLruCache::new(1);
    let stats = transitive_closure_shape_cache(1, &m, &mut mem, &mut sc);
    assert_eq!(stats.marked_objects, 4);
    let s = stats.shape_cache_stats;
    assert_eq!(s.compulsory_misses_instance, 2);
    assert_eq!(s.hits + s.capacity_misses, 2);
    let mut total = ShapeCacheStats::new();
    total.add(&s);
    total.add(&s);
    assert_eq!(total.compulsory_misses_instance, 4);
    assert_eq!(
        total.get_stats_header(),
        "shape_cache.hit\tshape_cache.cap_miss\tshape_cache.comp_miss_inst\tshape_cache.comp_miss_mirror"
    );
}
