use hwgc_soft::degrees::degree_frequencies;
use hwgc_soft::heapdump::{HeapObject, LeafObjectArrayHeapDump, LinkedListHeapDump, NormalEdge};
use hwgc_soft::paper_analysis::{edge_chunk_counts, sorted_offsets, EdgeChunk, ObjectShape};

fn object(start: u64, offsets: &[u64], objarray_length: Option<u64>) -> HeapObject {
    HeapObject {
        start,
        klass: 1,
        size: 128,
        objarray_length,
        instance_mirror_start: None,
        instance_mirror_count: None,
        edges: offsets.iter().map(|f| NormalEdge { slot: start + f, objref: 0 }).collect(),
    }
}

#[test]
fn log2_ceil_is_bit_length() {
    assert_eq!(EdgeChunk::log2_ceil(0), 0);
    assert_eq!(EdgeChunk::log2_ceil(1), 1);
    assert_eq!(EdgeChunk::log2_ceil(2), 2);
    assert_eq!(EdgeChunk::log2_ceil(3), 2);
    assert_eq!(EdgeChunk::log2_ceil(4), 3);
    assert_eq!(EdgeChunk::log2_ceil(usize::MAX), usize::BITS);
}

#[test]
fn edge_chunks_split_at_gaps() {
    let o = object(0x1000, &[40, 16, 56, 24, 48], None);
    assert_eq!(sorted_offsets(&o), vec![16, 24, 40, 48, 56]);
    assert_eq!(
        EdgeChunk::from_object(&o),
        vec![EdgeChunk { chunk_size_log: 2, edge_count: 2 }, EdgeChunk { chunk_size_log: 2, edge_count: 3 }]
    );
    let single = object(0x1000, &[8], None);
    assert_eq!(EdgeChunk::from_object(&single), vec![EdgeChunk { chunk_size_log: 1, edge_count: 1 }]);
}

#[test]
fn edge_chunks_of_arrays_and_leaves() {
    let array = object(0x1000, &[16, 24, 32, 40, 48], Some(5));
    assert_eq!(EdgeChunk::from_object(&array), vec![EdgeChunk { chunk_size_log: 3, edge_count: 5 }]);
    let leaf = object(0x1000, &[], None);
    assert_eq!(EdgeChunk::from_object(&leaf), vec![]);
}

#[test]
fn object_shapes() {
    assert_eq!(ObjectShape::from_object(&object(0x1000, &[16], Some(1))), ObjectShape::RefArray);
    assert_eq!(ObjectShape::from_object(&object(0x1000, &[], None)), ObjectShape::NoRef);
    assert_eq!(ObjectShape::from_object(&object(0x1000, &[24, 16], None)), ObjectShape::Refs(vec![16, 24]));
    assert_eq!(ObjectShape::RefArray.into_array(), vec![i64::MIN]);
    assert_eq!(ObjectShape::NoRef.into_array(), Vec::<i64>::new());
    assert_eq!(ObjectShape::Refs(vec![8, 16]).into_array(), vec![8, 16]);
}

#[test]
fn slots_below_the_start_have_negative_offsets() {
    let mut o = object(0x1000, &[], None);
    o.edges.push(NormalEdge { slot: 0xff8, objref: 0 });
    o.edges.push(NormalEdge { slot: 0x1000, objref: 0 });
    assert_eq!(sorted_offsets(&o), vec![-8, 0]);
    assert_eq!(EdgeChunk::from_object(&o), vec![EdgeChunk { chunk_size_log: 2, edge_count: 2 }]);
}

#[test]
fn edge_chunk_counts_over_objects() {
    let objects = vec![
        object(0x1000, &[40, 16, 56, 24, 48], None),
        object(0x2000, &[16, 24, 32, 40, 48], Some(5)),
        object(0x3000, &[8], None),
    ];
    let counts = edge_chunk_counts(&objects);
    assert_eq!(counts.len(), 3);
    assert_eq!(counts[&1], 1);
    assert_eq!(counts[&2], 5);
    assert_eq!(counts[&3], 5);
}

#[test]
fn degree_frequencies_of_a_list() {
    let hd = LinkedListHeapDump::new("linked_list_3").to_heapdump();
    let (in_freq, out_freq) = degree_frequencies(&hd);
    assert_eq!(in_freq.len(), 1);
    assert_eq!(in_freq.get(&1), Some(&2));
    assert_eq!(out_freq.len(), 2);
    assert_eq!(out_freq.get(&1), Some(&2));
    assert_eq!(out_freq.get(&0), Some(&1));
}

#[test]
fn degree_frequencies_of_an_array_with_a_shared_leaf() {
    let mut hd = LeafObjectArrayHeapDump::new("objarray_3").to_heapdump();
    // The third slot refers to the first leaf again.
    hd.objects[0].edges[2].objref = hd.objects[1].start;
    let (in_freq, out_freq) = degree_frequencies(&hd);
    assert_eq!(in_freq.get(&2), Some(&1));
    assert_eq!(in_freq.get(&1), Some(&1));
    assert_eq!(in_freq.len(), 2);
    assert_eq!(out_freq.get(&3), Some(&1));
    assert_eq!(out_freq.get(&0), Some(&3));
}
