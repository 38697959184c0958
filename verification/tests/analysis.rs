use hwgc_soft::analysis::work::{Analysis, MessageCounts, WorkKind};
use hwgc_soft::cli::AnalysisArgs;
use hwgc_soft::heapdump::{HeapDump, LeafObjectArrayHeapDump, LinkedListHeapDump};
use hwgc_soft::mark::verify_mark;
use hwgc_soft::memif::{BumpAllocationArena, NoOpMemoryInterface};
use hwgc_soft::object_model::bidirectional::BidirectionalObjectModel;
use hwgc_soft::target_memory::TargetMemory;

fn restore(hd: &HeapDump) -> (BidirectionalObjectModel<true>, TargetMemory) {
    let mut model = BidirectionalObjectModel::<true>::new();
    let mut mem = TargetMemory::new();
    let mut tib_arena = BumpAllocationArena::new(0x1000, 0x1000, 1 << 16, 8);
    model.restore_tibs(hd, &mut tib_arena);
    model.restore_objects(hd, &NoOpMemoryInterface::new(), &mut mem, &mut tib_arena);
    (model, mem)
}

fn args(rle: bool, eager_load: bool) -> AnalysisArgs {
    AnalysisArgs { owner_shift: 6, log_num_threads: 3, rle, eager_load }
}

fn list(n: usize) -> HeapDump {
    LinkedListHeapDump::new(&format!("linked_list_{}", n)).to_heapdump()
}

fn messages(m: Option<&MessageCounts>, k: WorkKind) -> u64 {
    m.map(|c| c.get(k)).unwrap_or(0)
}

#[test]
fn analysis_of_a_list_with_messages() {
    // Objects at 0x20000000008, 0x20000000028 (owned by thread 0) and
    // 0x20000000050 (owned by thread 1).
    let hd = list(3);
    let (m, mut mem) = restore(&hd);
    let mut a = Analysis::from_args(args(false, false));
    a.run(&m, &mut mem);
    assert!(verify_mark(1, &m, &mem).is_empty());
    let s = &a.stats;
    assert_eq!(s.object_counts.marked_objects, 3);
    assert_eq!(s.slot_counts.slots, 4);
    assert_eq!(s.slot_counts.non_empty_root_slots, 1);
    assert_eq!(s.slot_counts.visible_non_empty_slots_visible_child, 1);
    assert_eq!(s.slot_counts.visible_non_empty_slots_invisible_child, 1);
    assert_eq!(s.slot_counts.visible_empty_slots, 1);
    assert_eq!(s.slot_counts.invisible_empty_slots, 0);
    assert_eq!(s.total_work, 6);
    assert_eq!(s.work_dist.get(&0), Some(&4));
    assert_eq!(s.work_dist.get(&1), Some(&2));
    assert_eq!(messages(s.internal_messages.get(&0), WorkKind::Edges), 2);
    assert_eq!(messages(s.internal_messages.get(&0), WorkKind::MarkObject), 1);
    assert_eq!(messages(s.internal_messages.get(&1), WorkKind::Edges), 1);
    assert_eq!(messages(s.external_messages.get(&0), WorkKind::MarkObject), 1);
    assert_eq!(messages(s.external_messages.get(&1), WorkKind::MarkObject), 1);
    assert_eq!(a.work_queue.len(), 0);
}

#[test]
fn analysis_with_eager_loads_sends_fewer_messages() {
    let hd = list(3);
    let (m, mut mem) = restore(&hd);
    let mut a = Analysis::from_args(args(true, true));
    a.run(&m, &mut mem);
    assert!(verify_mark(1, &m, &mem).is_empty());
    let s = &a.stats;
    assert_eq!(s.object_counts.marked_objects, 3);
    // The root and the two children are the only messages.
    assert_eq!(s.total_work, 3);
    assert_eq!(s.slot_counts.visible_non_empty_slots_visible_child, 1);
    assert_eq!(s.slot_counts.visible_non_empty_slots_invisible_child, 1);
    assert_eq!(s.slot_counts.visible_empty_slots, 1);
    assert_eq!(messages(s.external_messages.get(&1), WorkKind::MarkObject), 1);
}

#[test]
fn analysis_marks_only_reachable_objects() {
    let mut hd = LeafObjectArrayHeapDump::new("objarray_3").to_heapdump();
    hd.objects[0].edges[2].objref = 0;
    for (rle, eager) in [(false, false), (true, false), (true, true), (false, true)] {
        let (m, mut mem) = restore(&hd);
        let mut a = Analysis::from_args(args(rle, eager));
        a.run(&m, &mut mem);
        assert_eq!(a.stats.object_counts.marked_objects, 3);
        assert_eq!(verify_mark(1, &m, &mem).len(), 1);
        let c = a.stats.slot_counts;
        assert_eq!(
            c.slots,
            c.visible_empty_slots
                + c.visible_non_empty_slots_visible_child
                + c.visible_non_empty_slots_invisible_child
                + c.invisible_empty_slots
                + c.invisible_non_empty_slots_visible_child
                + c.invisible_non_empty_slots_invisible_child
                + c.non_empty_root_slots
                + c.empty_root_slots
        );
        // The array's three slots, one of them null.
        assert_eq!(a.stats.object_counts.objarray_slots, 3);
        assert_eq!(a.stats.object_counts.objarray_empty_slots, 1);
        let total: u64 = a.stats.work_dist.values().sum();
        assert_eq!(total, a.stats.total_work);
    }
}

#[test]
fn analysis_owner_threads() {
    let a = Analysis::from_args(args(false, false));
    assert_eq!(a.num_threads, 8);
    assert_eq!(a.stride_length, 64);
    assert_eq!(a.next_stride_delta, 512);
    assert_eq!(a.get_owner_thread(0x40), 1);
    assert_eq!(a.get_owner_thread(0x1ff), 7);
    assert_eq!(a.get_owner_thread(0x200), 0);
}
