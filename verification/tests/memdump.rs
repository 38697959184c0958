use hwgc_soft::memdump::{MemdumpPhysical, MemdumpPhysicalMapping, MemdumpPhysicalMemoryInterface};
use hwgc_soft::memif::{align_up, BumpAllocationArena, MemoryInterface, NoOpMemoryInterface};
use hwgc_soft::target_memory::TargetMemory;

fn get_memif() -> MemdumpPhysicalMemoryInterface {
    let immix = MemdumpPhysicalMapping::new(0x1_0000_0000, 0x8000_0000, 0x200_0000_0000, 100usize * 1024 * 1024);
    let immortal = MemdumpPhysicalMapping::new(
        0x1_0000_0000 + 0x6400000,
        0x8000_0000 + 0x6400000,
        0x400_0000_0000,
        100usize * 1024 * 1024,
    );
    let los = MemdumpPhysicalMapping::new(
        0x1_0000_0000 + 0xc800000,
        0x8000_0000 + 0xc800000,
        0x600_0000_0000,
        100usize * 1024 * 1024,
    );
    let nonmoving = MemdumpPhysicalMapping::new(
        0x1_0000_0000 + 0x12c00000,
        0x8000_0000 + 0x12c00000,
        0x800_0000_0000,
        100usize * 1024 * 1024,
    );
    MemdumpPhysicalMemoryInterface::new(vec![immix, immortal, los, nonmoving]).unwrap()
}

#[test]
fn test_backing() {
    let memif = get_memif();
    assert_eq!(memif.translate_to_backing(0x200_0000_0000), 0x1_0000_0000);
    assert_eq!(memif.translate_to_backing(0x200_0000_0008), 0x1_0000_0008);
}

#[test]
fn memdump_translate_to_target() {
    let memif = get_memif();
    assert_eq!(memif.translate_to_target(0x400_0000_0010), 0x8000_0000 + 0x6400000 + 0x10);
    assert_eq!(memif.translate_host_to_target(0x800_0000_0000), 0x8000_0000 + 0x12c00000);
}

#[test]
fn memdump_unsorted_mappings_are_refused() {
    let a = MemdumpPhysicalMapping::new(0, 0, 0x400, 16);
    let b = MemdumpPhysicalMapping::new(16, 16, 0x200, 16);
    assert!(MemdumpPhysicalMemoryInterface::new(vec![a, b]).is_none());
    assert!(MemdumpPhysicalMemoryInterface::new(vec![b, a]).is_some());
    let overflowing = MemdumpPhysicalMapping::new(u64::MAX - 4, 0, 0x200, 16);
    assert!(MemdumpPhysicalMemoryInterface::new(vec![overflowing]).is_none());
}

#[test]
fn memdump_writes_go_to_backing_memory() {
    let memif = get_memif();
    let mut mem = TargetMemory::new();
    memif.write_pointer_to_target(&mut mem, 0x200_0000_0010, 0x400_0000_0020);
    assert_eq!(mem.load(0x1_0000_0010), 0x8000_0000 + 0x6400000 + 0x20);
    memif.write_pointer_to_target(&mut mem, 0x200_0000_0018, 0);
    assert_eq!(mem.load(0x1_0000_0018), 0);
    memif.write_value_to_target(&mut mem, 0x600_0000_0000, 42);
    assert_eq!(mem.load(0x1_0000_0000 + 0xc800000), 42);
}

#[test]
fn memdump_new_mapping_and_memif() {
    let mut md = MemdumpPhysical::new(0x10_0000, 3 * 4096, 0x8000_0000);
    let m1 = md.new_mapping(0x400_0000_0000, 100);
    let m2 = md.new_mapping(0x200_0000_0000, 4096);
    assert_eq!(m1.backing_memory_start, 0x10_0000);
    assert_eq!(m1.target_memory_start, 0x8000_0000);
    assert_eq!(m2.backing_memory_start, 0x10_0000 + 4096);
    assert_eq!(m2.target_memory_start, 0x8000_0000 + 4096);
    let memif = md.gen_memif().unwrap();
    assert_eq!(memif.translate_to_backing(0x200_0000_0008), 0x10_0000 + 4096 + 8);
    assert_eq!(memif.translate_to_target(0x400_0000_0010), 0x8000_0010);
    let mut same = MemdumpPhysical::new(0x10_0000, 2 * 4096, 0);
    same.new_mapping(0x1000, 8);
    same.new_mapping(0x1000, 8);
    assert!(same.gen_memif().is_none());
}

#[test]
fn memif_noop_and_arena() {
    let memif = NoOpMemoryInterface::new();
    let mut mem = TargetMemory::new();
    memif.write_pointer_to_target(&mut mem, 0x1000, 0x2000);
    memif.write_value_to_target(&mut mem, 0x1008, 7);
    assert_eq!(mem.load(0x1000), 0x2000);
    assert_eq!(mem.load(0x1008), 7);
    assert_eq!(mem.load(0x1010), 0);
    assert_eq!(memif.translate_host_to_target(0x1234), 0x1234);

    let mut arena = BumpAllocationArena::new(0x1000, 0x9000, 256, 16);
    assert_eq!(arena.allocate(24), (0x1000, 0x9000));
    assert_eq!(arena.allocate(8), (0x1020, 0x9020));
    assert_eq!(arena.allocate(16), (0x1030, 0x9030));
    assert_eq!(align_up(24, 16), 32);
    assert_eq!(align_up(32, 16), 32);
    assert_eq!(align_up(0, 8), 0);
    let m = MemdumpPhysicalMapping::new(0x4000, 0x8000, 0x10000, 4096);
    let mut a = m.to_arena(64);
    assert_eq!(a.allocate(1), (0x4000, 0x10000));
    assert_eq!(a.allocate(1), (0x4040, 0x10040));
}

use hwgc_soft::memdump_workload::{HeapLinkedList, LinkedList};

fn fresh_dump() -> MemdumpPhysical {
    // 16 pages of backing memory at 0x10_0000, seen by the target at 0xc000_0000.
    MemdumpPhysical::new(0x10_0000, 16 * 4096, 0xc000_0000)
}

#[test]
fn linked_list_workload_layout() {
    let mut md = fresh_dump();
    let mut mem = TargetMemory::new();
    LinkedList::new(3).gen_memdump(&mut md, &mut mem);
    // Root count and root on the first page.
    assert_eq!(mem.load(0x10_0000), 1);
    assert_eq!(mem.load(0x10_0008), 0xc000_1000);
    // Node i at 0x2000 + 16 i: next pointer, then value.
    assert_eq!(mem.load(0x10_1000), 0xc000_1010);
    assert_eq!(mem.load(0x10_1008), 0);
    assert_eq!(mem.load(0x10_1010), 0xc000_1020);
    assert_eq!(mem.load(0x10_1018), 1);
    assert_eq!(mem.load(0x10_1020), 0);
    assert_eq!(mem.load(0x10_1028), 2);
    let memif = md.gen_memif().unwrap();
    assert_eq!(memif.translate_to_target(0x2010), 0xc000_1010);
}

#[test]
fn heap_linked_list_workload_layout() {
    let mut md = fresh_dump();
    let mut mem = TargetMemory::new();
    HeapLinkedList::new(3, 1, 6, None).gen_memdump(&mut md, &mut mem);
    assert_eq!(mem.load(0x10_0000), 1);
    // The root points at the reference of node 0, eight bytes in.
    assert_eq!(mem.load(0x10_0008), 0xc000_1008);
    for i in 0..3u64 {
        let node = 0x10_1000 + 32 * i;
        assert_eq!(mem.load(node), i);
        assert_eq!(mem.load(node + 8), 0x01_0100);
        assert_eq!(mem.load(node + 16), 0);
    }
    assert_eq!(mem.load(0x10_1018), 0xc000_1028);
    assert_eq!(mem.load(0x10_1038), 0xc000_1048);
    assert_eq!(mem.load(0x10_1058), 0);
}

#[test]
fn heap_linked_list_workload_with_owner() {
    // Two threads, 64-byte parts (two nodes each), all nodes in thread 1's parts.
    let mut md = fresh_dump();
    let mut mem = TargetMemory::new();
    HeapLinkedList::new(4, 1, 6, Some(1)).gen_memdump(&mut md, &mut mem);
    // Nodes at 0x2040, 0x2060, 0x20c0, 0x20e0.
    assert_eq!(mem.load(0x10_0008), 0xc000_1048);
    assert_eq!(mem.load(0x10_1040), 0);
    assert_eq!(mem.load(0x10_1060), 1);
    assert_eq!(mem.load(0x10_10c0), 2);
    assert_eq!(mem.load(0x10_10e0), 3);
    assert_eq!(mem.load(0x10_1058), 0xc000_1068);
    assert_eq!(mem.load(0x10_1078), 0xc000_10c8);
    assert_eq!(mem.load(0x10_10d8), 0xc000_10e8);
    // Thread 0's parts stay untouched.
    assert_eq!(mem.load(0x10_1000), 0);
    assert_eq!(mem.load(0x10_1080), 0);
}
