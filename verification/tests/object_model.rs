use hwgc_soft::header::{FarwardingState, Header};
use hwgc_soft::heapdump::{HeapDump, HeapObject, LeafObjectArrayHeapDump, LinkedListHeapDump, NormalEdge, RootEdge};
use hwgc_soft::mark::{trace_object, verify_mark};
use hwgc_soft::memif::{BumpAllocationArena, NoOpMemoryInterface};
use hwgc_soft::object_model::bidirectional::{BidirectionalObjectModel, Tib as BiTib};
use hwgc_soft::object_model::openjdk::{
    get_tib_code_for_region, AlignmentEncodingPattern, OopMapBlock, OpenJDKObjectModel, Tib,
};
use hwgc_soft::object_model::{HasTibType, ObjectModel, TibType};
use hwgc_soft::target_memory::TargetMemory;
use hwgc_soft::trace::transitive_closure_edge_slot;

fn arena() -> BumpAllocationArena {
    BumpAllocationArena::new(0x1000, 0x1000, 1 << 16, 8)
}

fn list(n: usize) -> HeapDump {
    LinkedListHeapDump::new(&format!("linked_list_{}", n)).to_heapdump()
}

fn object(start: u64, klass: u64, fields: &[u64]) -> HeapObject {
    HeapObject {
        start,
        klass,
        size: 64,
        objarray_length: None,
        instance_mirror_start: None,
        instance_mirror_count: None,
        edges: fields.iter().map(|f| NormalEdge { slot: start + f, objref: 0 }).collect(),
    }
}

#[test]
fn oop_map_blocks_merge_adjacent_fields() {
    let o = object(0x1000, 1, &[16, 24, 40, 48, 56]);
    let blocks = Tib::encode_oop_map_blocks(&o);
    assert_eq!(blocks, vec![OopMapBlock { offset: 16, count: 2 }, OopMapBlock { offset: 40, count: 3 }]);
    let mut mirror = object(0x1000, 1, &[16, 24, 32]);
    mirror.instance_mirror_start = Some(0x1018);
    mirror.instance_mirror_count = Some(1);
    let blocks = Tib::encode_oop_map_blocks(&mirror);
    assert_eq!(blocks, vec![OopMapBlock { offset: 16, count: 1 }, OopMapBlock { offset: 32, count: 1 }]);
}

#[test]
fn alignment_patterns() {
    let b = |offset: u64, count: u64| OopMapBlock { offset, count };
    assert_eq!(Tib::alignment_encode_omb(&[]), AlignmentEncodingPattern::NoRef);
    assert_eq!(Tib::alignment_encode_omb(&[b(16, 1)]), AlignmentEncodingPattern::Ref0);
    assert_eq!(Tib::alignment_encode_omb(&[b(16, 2)]), AlignmentEncodingPattern::Ref0_1);
    assert_eq!(Tib::alignment_encode_omb(&[b(16, 1), b(24, 1)]), AlignmentEncodingPattern::Ref0_1);
    assert_eq!(Tib::alignment_encode_omb(&[b(32, 1)]), AlignmentEncodingPattern::Ref2);
    assert_eq!(Tib::alignment_encode_omb(&[b(24, 3)]), AlignmentEncodingPattern::Ref1_2_3);
    assert_eq!(Tib::alignment_encode_omb(&[b(48, 3)]), AlignmentEncodingPattern::Ref4_5_6);
    assert_eq!(Tib::alignment_encode_omb(&[b(24, 1)]), AlignmentEncodingPattern::Fallback);
    assert_eq!(Tib::alignment_encode_omb(&[b(64, 1)]), AlignmentEncodingPattern::Fallback);
    assert_eq!(Tib::alignment_encode_omb(&[b(16, 8)]), AlignmentEncodingPattern::Fallback);
    assert_eq!(get_tib_code_for_region(0x1008), AlignmentEncodingPattern::Ref0);
    assert_eq!(get_tib_code_for_region(0x1038), AlignmentEncodingPattern::Fallback);
    assert_eq!(get_tib_code_for_region(0x1030), AlignmentEncodingPattern::RefArray);
    for c in 0..8u8 {
        assert_eq!(AlignmentEncodingPattern::from_code(c).code(), c);
    }
}

fn restore_openjdk<const AE: bool>(hd: &HeapDump) -> (OpenJDKObjectModel<AE>, TargetMemory) {
    let mut model = OpenJDKObjectModel::<AE>::new();
    let mut mem = TargetMemory::new();
    let mut tib_arena = arena();
    let placed = model.restore_tibs(hd, &mut tib_arena);
    assert_eq!(placed, 1);
    model.restore_objects(hd, &NoOpMemoryInterface::new(), &mut mem, &mut tib_arena);
    (model, mem)
}

#[test]
fn openjdk_restore_and_scan_linked_list() {
    let hd = list(4);
    for ae in [false, true] {
        let (objects, roots, scans, tib_lookup, arrays) = if ae {
            let (m, mem) = restore_openjdk::<true>(&hd);
            let scans: Vec<_> = m.objects().iter().map(|o| m.scan_object(&mem, *o)).collect();
            let lookups: Vec<_> = m.objects().iter().map(|o| m.tib_lookup_required(&mem, *o)).collect();
            let arrays: Vec<_> = m.objects().iter().map(|o| m.is_objarray(&mem, *o)).collect();
            (m.objects().to_vec(), m.roots().to_vec(), scans, lookups, arrays)
        } else {
            let (m, mem) = restore_openjdk::<false>(&hd);
            let scans: Vec<_> = m.objects().iter().map(|o| m.scan_object(&mem, *o)).collect();
            let lookups: Vec<_> = m.objects().iter().map(|o| m.tib_lookup_required(&mem, *o)).collect();
            let arrays: Vec<_> = m.objects().iter().map(|o| m.is_objarray(&mem, *o)).collect();
            (m.objects().to_vec(), m.roots().to_vec(), scans, lookups, arrays)
        };
        let starts: Vec<u64> = hd.objects.iter().map(|o| o.start).collect();
        assert_eq!(objects, starts);
        assert_eq!(roots, vec![0x20000000000]);
        for (i, o) in starts.iter().enumerate() {
            assert_eq!(scans[i], vec![(o + 16, 1)]);
            assert_eq!(tib_lookup[i], !ae);
            assert!(!arrays[i]);
        }
    }
}

#[test]
fn openjdk_restore_writes_memory() {
    let hd = list(3);
    let (m, mem) = restore_openjdk::<true>(&hd);
    let tib = OpenJDKObjectModel::<true>::get_tib(&mem, 0x20000000000);
    assert_ne!(tib, 0);
    // The TIB address encodes the single-reference pattern.
    assert_eq!(get_tib_code_for_region(tib), AlignmentEncodingPattern::Ref0);
    assert_eq!(mem.load(0x20000000000 + 16), 0x20000000000 + 32);
    assert_eq!(mem.load(0x20000000000 + 32 + 16), 0x20000000000 + 64);
    assert_eq!(m.object_sizes().get(&0x20000000040), Some(&32));
}

#[test]
fn openjdk_object_array() {
    let hd = LeafObjectArrayHeapDump::new("objarray_2").to_heapdump();
    let mut model = OpenJDKObjectModel::<true>::new();
    let mut mem = TargetMemory::new();
    let mut tib_arena = arena();
    assert_eq!(model.restore_tibs(&hd, &mut tib_arena), 2);
    model.restore_objects(&hd, &NoOpMemoryInterface::new(), &mut mem, &mut tib_arena);
    let a = 0x20000000000u64;
    assert!(model.is_objarray(&mem, a));
    assert_eq!(mem.load(a + 16), 2);
    assert_eq!(model.scan_object(&mem, a), vec![(a + 24, 2)]);
    assert_eq!(get_tib_code_for_region(OpenJDKObjectModel::<true>::get_tib(&mem, a)), AlignmentEncodingPattern::RefArray);
    let leaf = hd.objects[1].start;
    assert_eq!(model.scan_object(&mem, leaf), vec![]);
    model.reset();
    assert!(model.objects().is_empty());
    assert!(model.roots().is_empty());
    assert!(model.object_sizes().is_empty());
}

#[test]
fn bidirectional_encode_header() {
    let h = BiTib { num_refs: 3, ttype: TibType::Ordinary }.encode_header();
    assert_eq!(h.get_byte(1), 1);
    assert_eq!(h.get_byte(2), 3);
    assert_eq!(BiTib { num_refs: 0, ttype: TibType::Ordinary }.encode_header().value(), 0);
    assert_eq!(BiTib { num_refs: 300, ttype: TibType::Ordinary }.encode_header().get_byte(1), 0xff);
    assert_eq!(BiTib { num_refs: 0, ttype: TibType::ObjArray }.encode_header().get_byte(1), 2);
    assert_eq!(BiTib { num_refs: 5, ttype: TibType::ObjArray }.get_tib_type(), TibType::ObjArray);
}

#[test]
fn bidirectional_moves_objects() {
    let hd = list(3);
    for header in [true, false] {
        let mut mem = TargetMemory::new();
        let mut tib_arena = arena();
        let (objects, roots, scans, lookup) = if header {
            let mut m = BidirectionalObjectModel::<true>::new();
            m.restore_tibs(&hd, &mut tib_arena);
            m.restore_objects(&hd, &NoOpMemoryInterface::new(), &mut mem, &mut tib_arena);
            let scans: Vec<_> = m.objects().iter().map(|o| m.scan_object(&mem, *o)).collect();
            let lookup: Vec<_> = m.objects().iter().map(|o| m.tib_lookup_required(&mem, *o)).collect();
            (m.objects().to_vec(), m.roots().to_vec(), scans, lookup)
        } else {
            let mut m = BidirectionalObjectModel::<false>::new();
            m.restore_tibs(&hd, &mut tib_arena);
            m.restore_objects(&hd, &NoOpMemoryInterface::new(), &mut mem, &mut tib_arena);
            let scans: Vec<_> = m.objects().iter().map(|o| m.scan_object(&mem, *o)).collect();
            let lookup: Vec<_> = m.objects().iter().map(|o| m.tib_lookup_required(&mem, *o)).collect();
            (m.objects().to_vec(), m.roots().to_vec(), scans, lookup)
        };
        let base = 0x20000000000u64;
        // A node with one reference moves 8 bytes up; the last node, whose
        // TIB is shared with the others, keeps one reference slot as well.
        assert_eq!(objects, vec![base + 8, base + 32 + 8, base + 64 + 16]);
        assert_eq!(roots, vec![base + 8]);
        assert_eq!(mem.load(base + 8 + 16), base + 32 + 8);
        assert_eq!(mem.load(base + 40 + 16), base + 64 + 16);
        for (i, o) in objects.iter().enumerate() {
            assert_eq!(scans[i], vec![(o + 16, 1)]);
            assert_eq!(lookup[i], !header);
        }
        if header {
            assert_eq!(Header::load(&mem, base + 8).get_byte(1), 1);
            assert_eq!(Header::load(&mem, base + 8).get_byte(2), 1);
        }
    }
}

#[test]
fn marking_and_verification() {
    let hd = list(3);
    let (m, mut mem) = restore_openjdk::<false>(&hd);
    assert_eq!(verify_mark(1, &m, &mem), m.objects().to_vec());
    assert!(trace_object(&mut mem, 0x20000000000, 1));
    assert!(!trace_object(&mut mem, 0x20000000000, 1));
    assert!(Header::is_marked(&mem, 0x20000000000, 1));
    assert_eq!(verify_mark(1, &m, &mem), vec![0x20000000020, 0x20000000040]);
    assert!(trace_object(&mut mem, 0x20000000020, 1));
    assert!(trace_object(&mut mem, 0x20000000040, 1));
    assert!(verify_mark(1, &m, &mem).is_empty());
    // The next epoch flips the mark sense.
    assert_eq!(verify_mark(0, &m, &mem).len(), 3);
}

#[test]
fn header_memory_operations() {
    let mut mem = TargetMemory::new();
    let mut h = Header::new();
    h.set_mark_byte(1);
    h.set_byte(9, 3);
    h.store(&mut mem, 0x100);
    assert_eq!(Header::load(&mem, 0x100).get_mark_byte(), 1);
    assert_eq!(Header::load(&mem, 0x100).get_byte(3), 9);
    assert!(Header::attempt_mark_byte(&mut mem, 0x100, 2));
    assert!(!Header::attempt_mark_byte(&mut mem, 0x100, 2));
    assert_eq!(Header::attempt_to_forward(&mut mem, 0x100, 1), FarwardingState::NotForwarded);
    assert_eq!(Header::attempt_to_forward(&mut mem, 0x100, 1), FarwardingState::Forwarding);
    Header::set_as_forwarded(&mut mem, 0x100, 1);
    assert_eq!(Header::attempt_to_forward(&mut mem, 0x100, 1), FarwardingState::Forwarded);
    assert_eq!(Header::spin_and_get_farwarded_object(&mem, 0x100, 1), 0x100);
    assert!(FarwardingState::Forwarding.is_forwarded_or_being_forwarded());
    assert!(!FarwardingState::NotForwarded.is_forwarded_or_being_forwarded());
    assert_eq!(Header::volatile_load(&mem, 0x100).get_byte(3), 9);
}

#[test]
fn root_edges_are_copyable() {
    let r = RootEdge { objref: 5 };
    let s = r;
    assert_eq!(r, s);
}

#[test]
fn edge_slot_closure_marks_the_list() {
    let hd = list(5);
    let (m, mut mem) = restore_openjdk::<true>(&hd);
    let stats = transitive_closure_edge_slot(1, &m, &mut mem);
    assert_eq!(stats.marked_objects, 5);
    assert_eq!(stats.non_empty_slots, 5);
    assert!(verify_mark(1, &m, &mem).is_empty());
    // Slots still hold their references.
    assert_eq!(mem.load(0x20000000000 + 16), 0x20000000020);
}

#[test]
fn edge_slot_closure_skips_unreachable_objects() {
    let mut hd = LeafObjectArrayHeapDump::new("objarray_3").to_heapdump();
    // Drop the reference to the last leaf: it stays unmarked.
    hd.objects[0].edges[2].objref = 0;
    let mut model = OpenJDKObjectModel::<false>::new();
    let mut mem = TargetMemory::new();
    let mut tib_arena = arena();
    model.restore_tibs(&hd, &mut tib_arena);
    model.restore_objects(&hd, &NoOpMemoryInterface::new(), &mut mem, &mut tib_arena);
    let stats = transitive_closure_edge_slot(1, &model, &mut mem);
    assert_eq!(stats.marked_objects, 3);
    assert_eq!(stats.slots, 1 + 3);
    assert_eq!(verify_mark(1, &model, &mem), vec![hd.objects[3].start]);
}

#[test]
fn edge_slot_closure_on_moved_objects() {
    let hd = list(4);
    let mut mem = TargetMemory::new();
    let mut tib_arena = arena();
    let mut m = BidirectionalObjectModel::<true>::new();
    m.restore_tibs(&hd, &mut tib_arena);
    m.restore_objects(&hd, &NoOpMemoryInterface::new(), &mut mem, &mut tib_arena);
    let stats = transitive_closure_edge_slot(1, &m, &mut mem);
    assert_eq!(stats.marked_objects, 4);
    assert!(verify_mark(1, &m, &mem).is_empty());
}

#[test]
fn restored_tib_word_points_to_the_new_tib() {
    let hd = HeapDump {
        objects: vec![HeapObject {
            start: 0x1000,
            klass: 7,
            size: 48,
            objarray_length: None,
            instance_mirror_start: None,
            instance_mirror_count: None,
            edges: vec![NormalEdge { slot: 0x1010, objref: 0x1000 }],
        }],
        roots: vec![RootEdge { objref: 0x1000 }],
        spaces: vec![],
    };
    let mut m = BidirectionalObjectModel::<false>::new();
    let mut mem = TargetMemory::new();
    let mut tib_arena = BumpAllocationArena::new(0x1000_0000, 0x1000_0000, 4096, 16);
    m.restore_objects(&hd, &NoOpMemoryInterface::new(), &mut mem, &mut tib_arena);
    assert_eq!(m.roots(), &[0x1018]);
    assert_eq!(m.objects(), &[0x1018]);
    assert_eq!(m.object_sizes().get(&0x1018), Some(&48));
    // The TIB is placed at the arena cursor and the TIB word holds it.
    assert_eq!(mem.load(0x1020), 0x1000_0000);
    assert_eq!(mem.load(0x1028), 0x1018);
}

#[test]
fn second_restore_of_tibs_places_none() {
    let hd = list(4);
    let mut m = OpenJDKObjectModel::<false>::new();
    let mut tib_arena = arena();
    assert_eq!(m.restore_tibs(&hd, &mut tib_arena), 1);
    assert_eq!(m.restore_tibs(&hd, &mut tib_arena), 0);
}
