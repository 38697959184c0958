use hwgc_soft::heapdump::{
    HeapDump, HeapDumpPathError, HeapObject, LeafObjectArrayHeapDump, LinkedListHeapDump, NormalEdge,
    RootEdge, Space,
};
use hwgc_soft::sanity::sanity_trace;
use std::collections::HashMap;

fn object_map(hd: &HeapDump) -> HashMap<u64, HeapObject> {
    let mut m = HashMap::new();
    for o in &hd.objects {
        m.insert(
            o.start,
            HeapObject {
                start: o.start,
                klass: o.klass,
                size: o.size,
                objarray_length: o.objarray_length,
                instance_mirror_start: o.instance_mirror_start,
                instance_mirror_count: o.instance_mirror_count,
                edges: o.edges.clone(),
            },
        );
    }
    m
}

#[test]
fn heapdump_space_types() {
    assert_eq!(HeapDump::get_space_type(0x20000000000), Space::Immix);
    assert_eq!(HeapDump::get_space_type(0x40000000000), Space::Immortal);
    assert_eq!(HeapDump::get_space_type(0x60000000008), Space::Los);
    assert_eq!(HeapDump::get_space_type(0x80000000000), Space::Nonmoving);
}

#[test]
fn linked_list_names() {
    let d = LinkedListHeapDump::new("linked_list_16");
    assert_eq!((d.num_nodes, d.sequential), (16, true));
    let d = LinkedListHeapDump::new("linked_list_8_false");
    assert_eq!((d.num_nodes, d.sequential), (8, false));
    assert!(LinkedListHeapDump::parse("linked_list_x").is_none());
    assert!(LinkedListHeapDump::parse("linked_list_4_maybe").is_none());
    assert!(LinkedListHeapDump::parse("objarray_4").is_none());
    assert_eq!(LeafObjectArrayHeapDump::new("objarray_3").num_objs, 3);
    assert!(LeafObjectArrayHeapDump::parse("objarray_").is_none());
}

#[test]
fn sequential_linked_list_heapdump() {
    let hd = LinkedListHeapDump::new("linked_list_4").to_heapdump();
    assert_eq!(hd.objects.len(), 4);
    assert_eq!(hd.roots.len(), 1);
    assert_eq!(hd.roots[0].objref, 0x20000000000);
    assert_eq!(hd.spaces.len(), 1);
    assert_eq!(hd.spaces[0].name, "immix");
    assert_eq!(hd.spaces[0].start, 0x20000000000);
    assert_eq!(hd.spaces[0].end, 0x20000000000 + 4 * 32);
    for (i, o) in hd.objects.iter().enumerate() {
        assert_eq!(o.start, 0x20000000000 + 32 * i as u64);
        assert_eq!(o.size, 32);
        assert_eq!(o.klass, 42);
        if i < 3 {
            assert_eq!(o.edges, vec![NormalEdge { slot: o.start + 16, objref: o.start + 32 }]);
        } else {
            assert!(o.edges.is_empty());
        }
    }
    assert_eq!(hd.space_ranges(), vec![(0x20000000000, 128)]);
    assert_eq!(sanity_trace(&hd.roots, &object_map(&hd)), 4);
}

#[test]
fn random_linked_list_is_still_a_list() {
    let hd = LinkedListHeapDump::new("linked_list_32_false").to_heapdump();
    assert_eq!(hd.objects.len(), 32);
    let mut starts: Vec<u64> = hd.objects.iter().map(|o| o.start).collect();
    starts.sort();
    let expected: Vec<u64> = (0..32u64).map(|i| 0x20000000000 + 32 * i).collect();
    assert_eq!(starts, expected);
    assert_eq!(hd.roots[0].objref, hd.objects[0].start);
    for i in 0..31 {
        assert_eq!(hd.objects[i].edges.len(), 1);
        assert_eq!(hd.objects[i].edges[0].objref, hd.objects[i + 1].start);
        assert_eq!(hd.objects[i].edges[0].slot, hd.objects[i].start + 16);
    }
    assert!(hd.objects[31].edges.is_empty());
    assert_eq!(sanity_trace(&hd.roots, &object_map(&hd)), 32);
}

#[test]
fn leaf_object_array_heapdump() {
    let hd = LeafObjectArrayHeapDump::new("objarray_3").to_heapdump();
    assert_eq!(hd.objects.len(), 4);
    let array = &hd.objects[0];
    assert_eq!(array.start, 0x20000000000);
    assert_eq!(array.objarray_length, Some(3));
    assert_eq!(array.size, 3 * 8 + 3 * 8);
    // The leaves start after the array, rounded up to 16 bytes.
    let leaves = 0x20000000000u64 + 48;
    for i in 0..3u64 {
        assert_eq!(array.edges[i as usize], NormalEdge { slot: 0x20000000000 + 24 + 8 * i, objref: leaves + 16 * i });
        let leaf = &hd.objects[1 + i as usize];
        assert_eq!(leaf.start, leaves + 16 * i);
        assert_eq!(leaf.klass, 43);
        assert!(leaf.edges.is_empty());
    }
    assert_eq!(hd.spaces[0].end, 0x20000000000 + 3 * 16 + 48);
    assert_eq!(sanity_trace(&hd.roots, &object_map(&hd)), 4);
}

#[test]
fn heapdump_from_path() {
    let hd = HeapDump::from_path("[synthetic]linked_list_5").unwrap();
    assert_eq!(hd.objects.len(), 5);
    let hd = HeapDump::from_path("[synthetic]objarray_2").unwrap();
    assert_eq!(hd.objects.len(), 3);
    assert_eq!(HeapDump::from_path("luindex.binpb.zst").err(), Some(HeapDumpPathError::NotSynthetic));
    assert_eq!(
        HeapDump::from_path("[synthetic]tree_4").err(),
        Some(HeapDumpPathError::InvalidSyntheticName)
    );
}

#[test]
fn sanity_trace_counts_only_reachable() {
    let mut objects = HashMap::new();
    let mk = |start: u64, refs: &[u64]| HeapObject {
        start,
        klass: 1,
        size: 32,
        objarray_length: None,
        instance_mirror_start: None,
        instance_mirror_count: None,
        edges: refs.iter().enumerate().map(|(i, r)| NormalEdge { slot: start + 16 + 8 * i as u64, objref: *r }).collect(),
    };
    objects.insert(0x100, mk(0x100, &[0x200, 0]));
    objects.insert(0x200, mk(0x200, &[0x100, 0x300]));
    objects.insert(0x300, mk(0x300, &[]));
    objects.insert(0x400, mk(0x400, &[0x100]));
    let roots = vec![RootEdge { objref: 0x100 }, RootEdge { objref: 0x100 }];
    assert_eq!(sanity_trace(&roots, &objects), 3);
    assert_eq!(sanity_trace(&[], &objects), 0);
}
