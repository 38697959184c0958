use hwgc_soft::simulate::cache::{FullyAssociativeCache, SetAssociativeCache, Tlb};
use hwgc_soft::simulate::memory::{
    AddressMapping, BankState, DDR4Rank, DDR4RankOption, DimmId, PageSize, PageTableWalker,
    PhysicalAddress, RankId, VirtualAddress,
};

#[test]
fn test_bank_state() {
    let mut bank_state = BankState::default();
    let addr = PhysicalAddress(0b0_0_0000000_000000);
    assert_eq!(bank_state.transaction(addr), 22 + 22 + 22 + 4);
    assert_eq!(bank_state.current_row, Some(0));
    assert_eq!(bank_state.transaction(addr), 22 + 4);
    let addr = PhysicalAddress(0b1_00_0000_0_0000000_000000);
    assert_eq!(bank_state.transaction(addr), 22 + 22 + 22 + 4);
    assert_eq!(bank_state.current_row, Some(1));
    assert_eq!(bank_state.transaction(addr), 22 + 4);
    let addr = PhysicalAddress(0b0_0_0000000_000000);
    assert_eq!(bank_state.transaction(addr), 22 + 22 + 22 + 4);
    let addr = PhysicalAddress(0b0_00_0000_0_0000001_000000);
    assert_eq!(bank_state.transaction(addr), 22 + 4);
}

#[test]
fn memory_test_set_associative_cache() {
    let mut cache = SetAssociativeCache::new(2, 1, DDR4RankOption::Naive, PageSize::FourKB);
    assert!(cache.read(VirtualAddress(0)) > SetAssociativeCache::HIT_LATENCY);
    assert_eq!(cache.read(VirtualAddress(0)), SetAssociativeCache::HIT_LATENCY);
    assert!(cache.read(VirtualAddress(64)) > SetAssociativeCache::HIT_LATENCY);
    assert_eq!(cache.read(VirtualAddress(64)), SetAssociativeCache::HIT_LATENCY);
    assert!(cache.read(VirtualAddress(128)) > SetAssociativeCache::HIT_LATENCY);
    assert_eq!(cache.read(VirtualAddress(128)), SetAssociativeCache::HIT_LATENCY);
    assert!(cache.read(VirtualAddress(0)) > SetAssociativeCache::HIT_LATENCY);
    assert_eq!(cache.read(VirtualAddress(64)), SetAssociativeCache::HIT_LATENCY);
    assert_eq!(cache.stats.read_hits, 4);
    assert_eq!(cache.stats.read_misses, 4);
    assert_eq!(cache.stats.write_hits, 0);
    assert_eq!(cache.stats.write_misses, 0);
}

#[test]
fn test_tlb_hit_miss() {
    let mut tlb = Tlb::new(PageSize::FourKB);
    let (pa, lat, hit) = tlb.translate(VirtualAddress(0x1000), false);
    assert_eq!(pa, PhysicalAddress(0x1000));
    assert_eq!(lat, PageTableWalker::latency(PageSize::FourKB));
    assert!(!hit);
    assert_eq!(tlb.stats.read_misses, 1);
    let (pa2, lat2, hit2) = tlb.translate(VirtualAddress(0x1042), false);
    assert_eq!(pa2, PhysicalAddress(0x1042));
    assert_eq!(lat2, Tlb::HIT_LATENCY);
    assert!(hit2);
    assert_eq!(tlb.stats.read_hits, 1);
}

#[test]
fn test_tlb_eviction() {
    let mut tlb = Tlb::new(PageSize::FourKB);
    let pages_per_set = PageSize::FourKB.tlb_ways();
    let num_sets = PageSize::FourKB.tlb_entries() / pages_per_set;
    for i in 0..=pages_per_set {
        let addr = VirtualAddress((i as u64) * (num_sets as u64) * (1u64 << 12));
        tlb.translate(addr, false);
    }
    let (_, lat, hit) = tlb.translate(VirtualAddress(0), false);
    assert_eq!(lat, PageTableWalker::latency(PageSize::FourKB));
    assert!(!hit);
}

#[test]
fn test_tlb_page_sizes() {
    for ps in [PageSize::FourKB, PageSize::TwoMB, PageSize::FourMB, PageSize::OneGB] {
        let mut tlb = Tlb::new(ps);
        let base = 1u64 << ps.page_shift();
        let (_, lat, hit) = tlb.translate(VirtualAddress(base), false);
        assert_eq!(lat, PageTableWalker::latency(ps));
        assert!(!hit);
        let (_, lat, hit) = tlb.translate(VirtualAddress(base + 64), false);
        assert_eq!(lat, Tlb::HIT_LATENCY);
        assert!(hit);
    }
}

#[test]
fn test_tlb_read_write_stats() {
    let mut tlb = Tlb::new(PageSize::FourKB);
    tlb.translate(VirtualAddress(0x1000), false);
    assert_eq!(tlb.stats.read_misses, 1);
    assert_eq!(tlb.stats.write_misses, 0);
    tlb.translate(VirtualAddress(0x1040), true);
    assert_eq!(tlb.stats.write_hits, 1);
    assert_eq!(tlb.stats.read_hits, 0);
    tlb.translate(VirtualAddress(0x1080), false);
    assert_eq!(tlb.stats.read_hits, 1);
    tlb.translate(VirtualAddress(0x2000), true);
    assert_eq!(tlb.stats.write_misses, 1);
    assert_eq!(tlb.stats.total_hits(), 2);
    assert_eq!(tlb.stats.total_misses(), 2);
}

#[test]
fn test_vipt_tlb_hit_cache_hit() {
    let mut cache = SetAssociativeCache::new(16, 4, DDR4RankOption::Naive, PageSize::FourKB);
    cache.read(VirtualAddress(0x1000));
    let lat = cache.read(VirtualAddress(0x1000));
    assert_eq!(lat, SetAssociativeCache::HIT_LATENCY);
}

#[test]
fn test_vipt_tlb_hit_cache_miss() {
    let mut cache = SetAssociativeCache::new(16, 4, DDR4RankOption::Naive, PageSize::FourKB);
    cache.read(VirtualAddress(0x1000));
    let lat = cache.read(VirtualAddress(0x1100));
    let ptw = PageTableWalker::latency(PageSize::FourKB);
    assert!(lat > SetAssociativeCache::HIT_LATENCY);
    assert!(lat < ptw + SetAssociativeCache::HIT_LATENCY);
}

#[test]
fn test_vipt_tlb_miss_cache_hit() {
    let mut cache = SetAssociativeCache::new(64, 4, DDR4RankOption::Naive, PageSize::FourKB);
    let ptw = PageTableWalker::latency(PageSize::FourKB);
    cache.read(VirtualAddress(0x1000));
    assert_eq!(cache.read(VirtualAddress(0x1000)), SetAssociativeCache::HIT_LATENCY);
    let num_sets = PageSize::FourKB.tlb_entries() / PageSize::FourKB.tlb_ways();
    for k in 1..=PageSize::FourKB.tlb_ways() {
        let page_num = 1 + k * num_sets;
        let base = (page_num as u64) * (1u64 << 12);
        cache.read(VirtualAddress(base + 0x40));
    }
    let lat = cache.read(VirtualAddress(0x1000));
    assert_eq!(lat, ptw + SetAssociativeCache::HIT_LATENCY);
}

#[test]
fn test_vipt_tlb_miss_cache_miss() {
    let mut cache = SetAssociativeCache::new(16, 4, DDR4RankOption::Naive, PageSize::FourKB);
    let ptw = PageTableWalker::latency(PageSize::FourKB);
    let lat = cache.read(VirtualAddress(0x1000));
    assert!(lat >= ptw + SetAssociativeCache::HIT_LATENCY);
}

#[test]
fn cache_write_always_reaches_dram() {
    let mut cache = SetAssociativeCache::new(16, 4, DDR4RankOption::Naive, PageSize::FourKB);
    // TLB miss, line miss, row miss.
    assert_eq!(cache.write(VirtualAddress(0x1000)), 30 + 4 + 70);
    // TLB hit, line hit, row hit: the write still pays for DRAM.
    assert_eq!(cache.write(VirtualAddress(0x1000)), 4 + 26);
    // A read of the same line now hits.
    assert_eq!(cache.read(VirtualAddress(0x1000)), 4);
    assert_eq!(cache.stats.write_hits, 1);
    assert_eq!(cache.stats.write_misses, 1);
    assert_eq!(cache.stats.read_hits, 1);
}

#[test]
fn tlb_translation_is_identity() {
    let mut tlb = Tlb::new(PageSize::TwoMB);
    for a in [0u64, 0x1234, 0x20_0000, 0x20_0fff, 0xdead_beef] {
        let (pa, _, _) = tlb.translate(VirtualAddress(a), false);
        assert_eq!(pa, PhysicalAddress(a));
        let (pa, lat, hit) = tlb.translate(VirtualAddress(a), true);
        assert_eq!(pa, PhysicalAddress(a));
        assert!(hit);
        assert_eq!(lat, Tlb::HIT_LATENCY);
    }
}

#[test]
fn page_sizes_and_masks() {
    assert_eq!(PageSize::FourKB.page_shift(), 12);
    assert_eq!(PageSize::TwoMB.page_shift(), 21);
    assert_eq!(PageSize::FourMB.page_shift(), 22);
    assert_eq!(PageSize::OneGB.page_shift(), 30);
    assert_eq!(PageSize::FourKB.tlb_entries(), 64);
    assert_eq!(PageSize::OneGB.tlb_ways(), 8);
    assert_eq!(PageSize::FourKB.vpn(VirtualAddress(0x1fff)), 0x1000);
    assert_eq!(PageTableWalker::latency(PageSize::OneGB), 18);
}

#[test]
fn address_mapping_fields() {
    // row 1, rank 1, DIMM 0, bank 3, channel 1, column 5, offset 7
    let a: u64 = (1 << 20) | (1 << 19) | (3 << 14) | (1 << 13) | (5 << 6) | 7;
    let m = AddressMapping(a);
    assert_eq!(m.row(), 1);
    assert_eq!(m.rank(), 1);
    assert_eq!(m.dimm(), 0);
    assert_eq!(m.bank(), 3);
    assert_eq!(m.channel(), 1);
    assert_eq!(m.col(), 5);
    assert_eq!(m.blkoffset(), 7);
}

#[test]
fn dimm_and_rank_ids() {
    let mut r = RankId(0);
    r.set_channel(1);
    r.set_dimm(1);
    r.set_rank(1);
    assert_eq!((r.channel(), r.dimm(), r.rank()), (1, 1, 1));
    let d = DimmId::from_rank(r);
    assert_eq!((d.channel(), d.dimm()), (1, 1));
    let mut rank = DDR4Rank::new(DDR4RankOption::Naive);
    assert_eq!(rank.transaction(PhysicalAddress(0), false), 70);
    assert_eq!(rank.transaction(PhysicalAddress(64), true), 26);
}

#[test]
fn memory_test_fully_associative_cache() {
    let mut cache = FullyAssociativeCache::new(64, DDR4RankOption::Naive, PageSize::FourKB);
    // First access to page: TLB miss, cache miss → includes PTW + DRAM
    assert!(cache.read(VirtualAddress(0x1000)) > FullyAssociativeCache::HIT_LATENCY);
    // Same page, cache hit, TLB hit → write still goes to DRAM (write-through)
    assert!(cache.write(VirtualAddress(0x1000)) > FullyAssociativeCache::HIT_LATENCY);
    // Same line, TLB hit, cache hit → pure hit latency
    assert_eq!(cache.read(VirtualAddress(0x1000)), FullyAssociativeCache::HIT_LATENCY);
    // Different page: TLB miss, cache miss
    assert!(cache.read(VirtualAddress(0x2000)) > FullyAssociativeCache::HIT_LATENCY);
    // Same page as 0x2000: TLB hit, write always → DRAM
    assert!(cache.write(VirtualAddress(0x2000)) > FullyAssociativeCache::HIT_LATENCY);
    // 0x1000 evicted from cache (capacity = 1 line) → cache miss
    assert!(cache.read(VirtualAddress(0x1000)) > FullyAssociativeCache::HIT_LATENCY);
    assert_eq!(cache.stats.read_hits, 1);
    assert_eq!(cache.stats.read_misses, 3);
    assert_eq!(cache.stats.write_hits, 2);
    assert_eq!(cache.stats.write_misses, 0);
}
