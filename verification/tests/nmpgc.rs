use hwgc_soft::heapdump::{HeapDump, LinkedListHeapDump};
use hwgc_soft::mark::verify_mark;
use hwgc_soft::memif::{BumpAllocationArena, NoOpMemoryInterface};
use hwgc_soft::object_model::bidirectional::BidirectionalObjectModel;
use hwgc_soft::simulate::nmpgc::{get_owner_thread, NMPProcessor, NMPProcessorWork, NMPGC};
use hwgc_soft::object_model::ObjectModel;
use hwgc_soft::target_memory::TargetMemory;

fn restore(hd: &HeapDump) -> (BidirectionalObjectModel<true>, TargetMemory) {
    let mut model = BidirectionalObjectModel::<true>::new();
    let mut mem = TargetMemory::new();
    let mut tib_arena = BumpAllocationArena::new(0x1000, 0x1000, 1 << 16, 8);
    model.restore_tibs(hd, &mut tib_arena);
    model.restore_objects(hd, &NoOpMemoryInterface::new(), &mut mem, &mut tib_arena);
    (model, mem)
}

#[test]
fn nmp_owner_by_64k_block() {
    assert_eq!(get_owner_thread(0x2_0000, 1), 0);
    assert_eq!(get_owner_thread(0x1_0000, 1), 1);
    assert_eq!(get_owner_thread(0x3_ffff, 2), 3);
    assert_eq!(get_owner_thread(0x4_0000, 2), 0);
}

#[test]
fn nmpgc_marks_every_object_of_a_list() {
    // 5000 nodes of 32 bytes span three 64 KB blocks, owned in turn by the
    // two processors, so marking goes back and forth by messages.
    let hd = LinkedListHeapDump::new("linked_list_5000").to_heapdump();
    let (model, mut mem) = restore(&hd);
    let mut g = NMPGC::new(&model, &mem, 1);
    assert_eq!(g.processors.len(), 2);
    assert!(g.run(&model, &mut mem));
    assert!(verify_mark(1, &model, &mem).is_empty());
    let c = g.stats_counts();
    assert_eq!(c.marked_objects, 5000);
    assert_eq!(c.ticks, g.ticks);
    assert!(c.busy_ticks <= 2 * c.ticks);
    assert!(c.busy_ticks > 0);
    // Every node is written once when marked; its slot is read once.
    assert_eq!(c.write_hits + c.write_misses, 5000);
    assert_eq!(c.read_hits + c.read_misses, 5000);
}

#[test]
fn processor_stalls_for_latency_then_marks() {
    let hd = LinkedListHeapDump::new("linked_list_2").to_heapdump();
    let (model, mut mem) = restore(&hd);
    let first = model.roots()[0];
    let mut p = NMPProcessor::new(0, 0);
    p.works.push_back(NMPProcessorWork::Mark(first));
    // The write misses the cache and opens a DRAM row: 70 ticks, the first
    // of which only starts the stall.
    assert_eq!(p.tick(&model, &mut mem), None);
    assert_eq!(p.stall_ticks, 69);
    for _ in 0..69 {
        assert_eq!(p.tick(&model, &mut mem), None);
    }
    assert_eq!(p.marked_objects, 0);
    assert_eq!(p.tick(&model, &mut mem), None);
    assert_eq!(p.marked_objects, 1);
    assert_eq!(p.busy_ticks, 70);
    assert_eq!(p.ticks, 71);
    // The node's one slot is queued for loading.
    assert_eq!(p.works.len(), 1);
}
