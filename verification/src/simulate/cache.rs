//! The TLB and the data caches of a near-memory processor.
//!
//! The caches are VIPT: the set index uses virtual-address bits below the
//! page size, so the lookup proceeds together with TLB translation.  On a
//! TLB hit the TLB latency is hidden; on a TLB miss the page-walk latency
//! is added.  Writes go through to DRAM and allocate a line.
use vstd::prelude::*;
use crate::simulate::lru_cache::{
    LruMap, after_get, after_put, key_position, lru_capacity, lru_entries, lru_get, lru_new, lru_put,
    lru_wf,
};
use crate::simulate::memory::{
    addr_to_line, bank_latency, line_of, page_mask_spec, page_shift_spec, ptw_latency_spec,
    tlb_entries_spec, tlb_ways_spec, DDR4Rank, DDR4RankOption, PageSize, PageTableWalker,
    PhysicalAddress, TlbStats, VirtualAddress, BANKS_PER_RANK, LINE_SIZE, LOG_LINE_SIZE,
    address_bank, address_row,
};

verus! {

/// Latency of a TLB hit in cycles.
pub const TLB_HIT_LATENCY: usize = 1;

/// Latency of a data-cache hit in cycles.
pub const CACHE_HIT_LATENCY: usize = 4;

/// Every entry of every set maps a page to itself.
pub open spec fn identity_entries(sets: Seq<LruMap>) -> bool {
    forall|s: int, i: int|
        0 <= s < sets.len() && 0 <= i < lru_entries(sets[s]).len() ==> #[trigger] lru_entries(sets[s])[i].1
            == lru_entries(sets[s])[i].0
}

/// The TLB set that virtual page `vpn` maps to, among `n` sets.
pub open spec fn tlb_set_index(p: PageSize, vpn: u64, n: nat) -> int {
    ((vpn >> page_shift_spec(p)) as int) % (n as int)
}

proof fn lemma_tlb_sets_positive(p: PageSize)
    ensures
        tlb_entries_spec(p) / tlb_ways_spec(p) >= 1,
        tlb_ways_spec(p) > 0,
{
    match p {
        PageSize::FourKB => assert(64usize / 4 == 16),
        PageSize::TwoMB | PageSize::FourMB => assert(32usize / 4 == 8),
        PageSize::OneGB => assert(8usize / 8 == 1),
    }
}

proof fn lemma_tlb_wf(t: Tlb)
    requires
        t.set_list().len() == tlb_entries_spec(t.page()) / tlb_ways_spec(t.page()),
        forall|q: int| 0 <= q < t.set_list().len() ==> lru_wf(#[trigger] t.set_list()[q])
            && lru_capacity(t.set_list()[q]) == tlb_ways_spec(t.page()),
        identity_entries(t.set_list()),
    ensures
        t.wf(),
{
}

/// Counters with room for one more event each.
pub open spec fn tlb_stats_room(s: TlbStats) -> bool {
    &&& s.read_hits < usize::MAX
    &&& s.read_misses < usize::MAX
    &&& s.write_hits < usize::MAX
    &&& s.write_misses < usize::MAX
}

/// What translating `vaddr` does to a TLB: the set of its page takes an
/// LRU lookup on a hit, or caches the page on a miss, no other set
/// changes, and the hit or miss counter of the access grows by one.
pub open spec fn tlb_after(pre: Tlb, post: Tlb, vaddr: u64, is_write: bool) -> bool {
    let vpn = vaddr & page_mask_spec(pre.page());
    let si = tlb_set_index(pre.page(), vpn, pre.set_list().len());
    let set = lru_entries(pre.set_list()[si]);
    let hit = key_position(set, vpn) is Some;
    &&& post.page() == pre.page()
    &&& post.set_list() == pre.set_list().update(si, post.set_list()[si])
    &&& lru_entries(post.set_list()[si]) == if hit {
        after_get(set, vpn)
    } else {
        after_put(set, lru_capacity(pre.set_list()[si]), vpn, vpn)
    }
    &&& post.counters() == if hit {
        if is_write {
            TlbStats { write_hits: (pre.counters().write_hits + 1) as usize, ..pre.counters() }
        } else {
            TlbStats { read_hits: (pre.counters().read_hits + 1) as usize, ..pre.counters() }
        }
    } else {
        if is_write {
            TlbStats { write_misses: (pre.counters().write_misses + 1) as usize, ..pre.counters() }
        } else {
            TlbStats { read_misses: (pre.counters().read_misses + 1) as usize, ..pre.counters() }
        }
    }
}

/// A set-associative TLB whose sets are LRU maps from virtual page to
/// physical page.
pub struct Tlb {
    sets: Vec<LruMap>,
    page_size: PageSize,
    ptw: PageTableWalker,
    pub stats: TlbStats,
}

impl Tlb {
    /// Latency of a TLB hit in cycles.
    pub const HIT_LATENCY: usize = 1;

    /// The sets, in order.
    pub closed spec fn set_list(&self) -> Seq<LruMap> {
        self.sets@
    }

    /// The page size the TLB translates.
    pub closed spec fn page(&self) -> PageSize {
        self.page_size
    }

    /// The hit and miss counters.
    pub closed spec fn counters(&self) -> TlbStats {
        self.stats
    }

    /// The number of sets is entries / ways, each set holds `ways` pages,
    /// and every entry maps a page to itself.
    pub open spec fn wf(&self) -> bool {
        &&& self.set_list().len() == tlb_entries_spec(self.page()) / tlb_ways_spec(self.page())
        &&& forall|s: int| 0 <= s < self.set_list().len() ==> lru_wf(#[trigger] self.set_list()[s])
            && lru_capacity(self.set_list()[s]) == tlb_ways_spec(self.page())
        &&& identity_entries(self.set_list())
    }

    /// An empty TLB for pages of `page_size`.
    pub fn new(page_size: PageSize) -> (r: Self)
        ensures
            r.wf(),
            r.page() == page_size,
            forall|s: int| 0 <= s < r.set_list().len() ==> lru_entries(#[trigger] r.set_list()[s]).len() == 0,
            r.counters() == (TlbStats { read_hits: 0, read_misses: 0, write_hits: 0, write_misses: 0 }),
    {
        let entries = page_size.tlb_entries();
        let ways = page_size.tlb_ways();
        proof {
            lemma_tlb_sets_positive(page_size);
        }
        let num_sets = entries / ways;
        let mut sets: Vec<LruMap> = Vec::new();
        let mut i: usize = 0;
        while i < num_sets
            invariant
                i <= num_sets,
                num_sets == tlb_entries_spec(page_size) / tlb_ways_spec(page_size),
                ways == tlb_ways_spec(page_size),
                ways > 0,
                sets@.len() == i,
                forall|s: int| 0 <= s < i ==> lru_wf(#[trigger] sets@[s]),
                forall|s: int| 0 <= s < i ==> lru_capacity(#[trigger] sets@[s]) == ways,
                forall|s: int| 0 <= s < i ==> lru_entries(#[trigger] sets@[s]).len() == 0,
            decreases num_sets - i,
        {
            let c = lru_new(ways);
            sets.push(c);
            proof {
                assert(sets@[i as int] == c);
            }
            i += 1;
        }
        let r = Tlb {
            sets,
            page_size,
            ptw: PageTableWalker,
            stats: TlbStats { read_hits: 0, read_misses: 0, write_hits: 0, write_misses: 0 },
        };
        assert(identity_entries(r.sets@));
        r
    }

    /// The set that virtual page `vpn` maps to.
    fn set_index(&self, vpn: u64) -> (r: usize)
        requires
            self.set_list().len() > 0,
        ensures
            r as int == tlb_set_index(self.page(), vpn, self.set_list().len()),
            r < self.set_list().len(),
    {
        let n = self.sets.len();
        ((vpn >> self.page_size.page_shift()) % (n as u64)) as usize
    }

    /// Translates `vaddr`; returns the physical address, the latency in
    /// cycles, and whether the TLB hit.  A miss walks the page table and
    /// caches the page in its set.
    #[verifier::spinoff_prover]
    #[verifier::rlimit(40)]
    pub fn translate(&mut self, vaddr: VirtualAddress, is_write: bool) -> (r: (PhysicalAddress, usize, bool))
        requires
            old(self).wf(),
            tlb_stats_room(old(self).counters()),
        ensures
            final(self).wf(),
            final(self).page() == old(self).page(),
            tlb_after(*old(self), *final(self), vaddr.0, is_write),
            ({
                let vpn = vaddr.0 & page_mask_spec(old(self).page());
                let n = old(self).set_list().len();
                let si = tlb_set_index(old(self).page(), vpn, n);
                let set = lru_entries(old(self).set_list()[si]);
                let hit = key_position(set, vpn) is Some;
                &&& r.0.0 == vaddr.0
                &&& r.2 == hit
                &&& r.1 == if hit { TLB_HIT_LATENCY } else { ptw_latency_spec(old(self).page()) }
                &&& final(self).set_list() == old(self).set_list().update(
                    si,
                    final(self).set_list()[si],
                )
                &&& lru_entries(final(self).set_list()[si]) == if hit {
                    after_get(set, vpn)
                } else {
                    after_put(set, lru_capacity(old(self).set_list()[si]), vpn, vpn)
                }
                &&& final(self).counters() == if hit {
                    if is_write {
                        TlbStats { write_hits: (old(self).counters().write_hits + 1) as usize, ..old(self).counters() }
                    } else {
                        TlbStats { read_hits: (old(self).counters().read_hits + 1) as usize, ..old(self).counters() }
                    }
                } else {
                    if is_write {
                        TlbStats { write_misses: (old(self).counters().write_misses + 1) as usize, ..old(self).counters() }
                    } else {
                        TlbStats { read_misses: (old(self).counters().read_misses + 1) as usize, ..old(self).counters() }
                    }
                }
            }),
    {
        let ghost old_sets = self.sets@;
        let vpn = self.page_size.vpn(vaddr);
        proof {
            lemma_tlb_sets_positive(self.page_size);
        }
        let set_idx = self.set_index(vpn);
        let mut set = lru_new(1);
        std::mem::swap(&mut set, &mut self.sets[set_idx]);
        let ghost original = set;
        proof {
            assert(set == old_sets[set_idx as int]);
            assert(lru_wf(old_sets[set_idx as int]));
        }
        let found = lru_get(&mut set, vpn);
        let result = match found {
            Some(ppn) => {
                if is_write {
                    self.stats.write_hits += 1;
                } else {
                    self.stats.read_hits += 1;
                }
                let mask = self.page_size.page_mask();
                let offset = vaddr.0 & !mask;
                proof {
                    let s = lru_entries(old_sets[set_idx as int]);
                    let i = key_position(s, vpn)->Some_0;
                    assert(s[i].1 == s[i].0);
                    let va = vaddr.0;
                    assert((va & mask) | (va & !mask) == va) by (bit_vector);
                }
                (PhysicalAddress(ppn | offset), Self::HIT_LATENCY, true)
            },
            None => {
                if is_write {
                    self.stats.write_misses += 1;
                } else {
                    self.stats.read_misses += 1;
                }
                let (paddr, ptw_latency) = self.ptw.walk(vaddr, self.page_size);
                let ppn = paddr.0 & self.page_size.page_mask();
                lru_put(&mut set, vpn, ppn);
                (paddr, ptw_latency, false)
            },
        };
        let ghost updated = set;
        std::mem::swap(&mut set, &mut self.sets[set_idx]);
        proof {
            let s = lru_entries(old_sets[set_idx as int]);
            let f = lru_entries(self.sets@[set_idx as int]);
            assert forall|q: int, i: int|
                0 <= q < self.sets@.len() && 0 <= i < lru_entries(self.sets@[q]).len() implies #[trigger] lru_entries(
                self.sets@[q],
            )[i].1 == lru_entries(self.sets@[q])[i].0 by {
                if q == set_idx {
                    assert(identity_entries(old_sets));
                    if found is Some {
                        let k = key_position(s, vpn)->Some_0;
                        assert(f == s.remove(k).push(s[k]));
                        if i < f.len() - 1 {
                            if i < k {
                                assert(f[i] == s[i]);
                            } else {
                                assert(f[i] == s[i + 1]);
                            }
                        }
                    } else {
                        if s.len() >= lru_capacity(old_sets[set_idx as int]) {
                            assert(f == s.drop_first().push((vpn, vpn)));
                            if i < f.len() - 1 {
                                assert(f[i] == s[i + 1]);
                            }
                        } else {
                            assert(f == s.push((vpn, vpn)));
                            if i < f.len() - 1 {
                                assert(f[i] == s[i]);
                            }
                        }
                    }
                } else {
                    assert(self.sets@[q] == old_sets[q]);
                }
            }
            assert(self.sets@ == old_sets.update(set_idx as int, self.sets@[set_idx as int]));
            assert forall|q: int| 0 <= q < self.sets@.len() implies #[trigger] lru_wf(self.sets@[q])
                && lru_capacity(self.sets@[q]) == tlb_ways_spec(self.page_size) by {
                assert(lru_wf(old(self).set_list()[q]));
                assert(old(self).set_list()[q] == old_sets[q]);
                if q != set_idx {
                    assert(self.sets@[q] == old_sets[q]);
                } else {
                    assert(self.sets@[q] == updated);
                    assert(lru_wf(updated));
                    assert(lru_capacity(updated) == lru_capacity(original));
                    assert(lru_capacity(old_sets[q]) == tlb_ways_spec(self.page_size));
                }
            }
            assert(self.set_list().len() == tlb_entries_spec(self.page()) / tlb_ways_spec(self.page()));
            assert(identity_entries(self.set_list()));
            assert(forall|q: int| 0 <= q < self.set_list().len() ==> lru_wf(#[trigger] self.set_list()[q])
                && lru_capacity(self.set_list()[q]) == tlb_ways_spec(self.page()));
            let t = *self;
            assert(t.set_list() =~= self.set_list());
            assert(t.page() == self.page());
            lemma_tlb_wf(t);
        }
        result
    }
}

/// Hit and miss counters of a data cache.
#[derive(Debug, Clone, Copy)]
pub struct CacheStats {
    pub read_hits: usize,
    pub read_misses: usize,
    pub write_hits: usize,
    pub write_misses: usize,
}

impl CacheStats {
    /// All counters zero.
    pub fn new() -> (r: Self)
        ensures
            r == (CacheStats { read_hits: 0, read_misses: 0, write_hits: 0, write_misses: 0 }),
    {
        CacheStats { read_hits: 0, read_misses: 0, write_hits: 0, write_misses: 0 }
    }
}

/// Counters with room for one more event each.
pub open spec fn cache_stats_room(s: CacheStats) -> bool {
    &&& s.read_hits < usize::MAX
    &&& s.read_misses < usize::MAX
    &&& s.write_hits < usize::MAX
    &&& s.write_misses < usize::MAX
}

/// The counters after an access: the hit or miss counter of its kind
/// grows by one.
pub open spec fn counted(c: CacheStats, line_hit: bool, is_write: bool) -> CacheStats {
    if line_hit {
        if is_write {
            CacheStats { write_hits: (c.write_hits + 1) as usize, ..c }
        } else {
            CacheStats { read_hits: (c.read_hits + 1) as usize, ..c }
        }
    } else {
        if is_write {
            CacheStats { write_misses: (c.write_misses + 1) as usize, ..c }
        } else {
            CacheStats { read_misses: (c.read_misses + 1) as usize, ..c }
        }
    }
}

/// The latency of accessing `addr` given the TLB, a line hit or miss and
/// the DRAM rank before the access.
pub open spec fn latency_before(t: Tlb, line_hit: bool, is_write: bool, dram: Seq<Option<u16>>, addr: u64) -> int {
    let vpn = addr & page_mask_spec(t.page());
    let tsi = tlb_set_index(t.page(), vpn, t.set_list().len());
    let tlb_hit = key_position(lru_entries(t.set_list()[tsi]), vpn) is Some;
    let tlb_latency = if tlb_hit { TLB_HIT_LATENCY } else { ptw_latency_spec(t.page()) };
    access_latency(tlb_hit, tlb_latency, line_hit, is_write, bank_latency(dram[address_bank(addr) as int], addr))
}

/// The DRAM rank after an access: a read hit leaves it; anything else
/// opens the row of `addr` in its bank.
pub open spec fn dram_after(dram: Seq<Option<u16>>, line_hit: bool, is_write: bool, addr: u64) -> Seq<Option<u16>> {
    if line_hit && !is_write {
        dram
    } else {
        dram.update(address_bank(addr) as int, Some(address_row(addr)))
    }
}

/// The lines of an LRU set after looking up `line`: an LRU lookup on a
/// hit, an insert (evicting the least recently used line when full) on a
/// miss.
pub open spec fn lines_after(set: LruMap, line: u64) -> Seq<(u64, u64)> {
    let e = lru_entries(set);
    if key_position(e, line) is Some {
        after_get(e, line)
    } else {
        after_put(e, lru_capacity(set), line, 0)
    }
}

/// Latency of an access given the TLB outcome and whether the line hit:
/// a TLB hit hides the TLB latency; a read hit needs no DRAM access; a
/// write always goes to DRAM.
pub open spec fn access_latency(tlb_hit: bool, tlb_latency: usize, line_hit: bool, is_write: bool, dram: usize) -> int {
    let base = if tlb_hit { CACHE_HIT_LATENCY as int } else { tlb_latency + CACHE_HIT_LATENCY };
    if line_hit && !is_write {
        base
    } else {
        base + dram
    }
}

/// An access to `addr` (a write when `is_write`) took cache `pre` to
/// `post` and returned `r`: the set of `addr` looked its line up (an LRU
/// hit, or an insert that may evict the least recently used line), no
/// other set changed, the TLB translated `addr`, the DRAM rank served the
/// access unless it was a read hit, one counter grew, and `r` is the
/// latency of that path.
pub open spec fn set_access(pre: SetAssociativeCache, post: SetAssociativeCache, addr: u64, is_write: bool, r: usize) -> bool {
    let n = pre.set_list().len();
    let si = cache_set_index(addr, n);
    let line = line_of(addr);
    let line_hit = key_position(lru_entries(pre.set_list()[si]), line) is Some;
    &&& r == latency_before(pre.tlb_state(), line_hit, is_write, pre.dram()@, addr)
    &&& post.set_list().len() == n
    &&& lru_entries(post.set_list()[si]) == lines_after(pre.set_list()[si], line)
    &&& lru_capacity(post.set_list()[si]) == lru_capacity(pre.set_list()[si])
    &&& forall|s: int| 0 <= s < n && s != si ==> #[trigger] post.set_list()[s] == pre.set_list()[s]
    &&& tlb_after(pre.tlb_state(), post.tlb_state(), addr, is_write)
    &&& post.dram()@ == dram_after(pre.dram()@, line_hit, is_write, addr)
    &&& post.counters() == counted(pre.counters(), line_hit, is_write)
}

/// A set-associative, write-through, write-allocate data cache with a TLB
/// and a DRAM rank behind it.
pub struct SetAssociativeCache {
    cache_sets: Vec<LruMap>,
    rank: DDR4Rank,
    pub stats: CacheStats,
    pub tlb: Tlb,
}

/// `n` is a power of two whose set-index bits stay within the page offset.
pub open spec fn vipt_sets(n: usize, page_size: PageSize) -> bool {
    exists|k: nat| k + LOG_LINE_SIZE <= page_shift_spec(page_size) && n == vstd::arithmetic::power2::pow2(k)
}

/// The cache set that holds virtual address `v`, among `n` sets.
pub open spec fn cache_set_index(v: u64, n: nat) -> int {
    ((v >> LOG_LINE_SIZE) as int) % (n as int)
}

impl SetAssociativeCache {
    /// Latency of a cache hit in cycles.
    pub const HIT_LATENCY: usize = 4;

    /// The sets, in order.
    pub closed spec fn set_list(&self) -> Seq<LruMap> {
        self.cache_sets@
    }

    /// The DRAM rank behind the cache.
    pub closed spec fn dram(&self) -> DDR4Rank {
        self.rank
    }

    /// The hit and miss counters.
    pub closed spec fn counters(&self) -> CacheStats {
        self.stats
    }

    /// The TLB.
    pub closed spec fn tlb_state(&self) -> Tlb {
        self.tlb
    }

    /// Every set is a well-formed LRU map of `ways` lines, the rank has all
    /// its banks, and the TLB is well formed.
    pub open spec fn wf(&self) -> bool {
        &&& self.set_list().len() > 0
        &&& forall|s: int| 0 <= s < self.set_list().len() ==> lru_wf(#[trigger] self.set_list()[s])
        &&& self.dram()@.len() == BANKS_PER_RANK
        &&& self.tlb_state().wf()
    }

    /// An empty cache of `num_sets` sets of `num_ways` lines.
    pub fn new(num_sets: usize, num_ways: usize, rank_option: DDR4RankOption, page_size: PageSize) -> (r: Self)
        requires
            num_sets > 0,
            num_ways > 0,
            vipt_sets(num_sets, page_size),
            rank_option is Naive,
        ensures
            r.wf(),
            r.set_list().len() == num_sets,
            forall|s: int| 0 <= s < num_sets ==> lru_capacity(#[trigger] r.set_list()[s]) == num_ways
                && lru_entries(r.set_list()[s]).len() == 0,
            r.tlb_state().page() == page_size,
            r.counters() == (CacheStats { read_hits: 0, read_misses: 0, write_hits: 0, write_misses: 0 }),
    {
        let mut cache_sets: Vec<LruMap> = Vec::new();
        let mut i: usize = 0;
        while i < num_sets
            invariant
                i <= num_sets,
                num_ways > 0,
                cache_sets@.len() == i,
                forall|s: int| 0 <= s < i ==> lru_wf(#[trigger] cache_sets@[s]),
                forall|s: int| 0 <= s < i ==> lru_capacity(#[trigger] cache_sets@[s]) == num_ways,
                forall|s: int| 0 <= s < i ==> lru_entries(#[trigger] cache_sets@[s]).len() == 0,
            decreases num_sets - i,
        {
            let c = lru_new(num_ways);
            cache_sets.push(c);
            proof {
                assert(cache_sets@[i as int] == c);
            }
            i += 1;
        }
        SetAssociativeCache {
            cache_sets,
            stats: CacheStats::new(),
            rank: DDR4Rank::new(rank_option),
            tlb: Tlb::new(page_size),
        }
    }

    /// The set that holds virtual address `vaddr`.
    fn get_set_idx(&self, vaddr: VirtualAddress) -> (r: usize)
        requires
            self.set_list().len() > 0,
        ensures
            r as int == cache_set_index(vaddr.0, self.set_list().len()),
            r < self.set_list().len(),
    {
        let line = vaddr.0 >> LOG_LINE_SIZE;
        (line % (self.cache_sets.len() as u64)) as usize
    }

    /// Accesses the word at `addr`; returns the latency in cycles.
    fn access(&mut self, addr: VirtualAddress, is_write: bool) -> (r: usize)
        requires
            old(self).wf(),
            tlb_stats_room(old(self).tlb_state().counters()),
            cache_stats_room(old(self).counters()),
        ensures
            final(self).wf(),
            final(self).set_list().len() == old(self).set_list().len(),
            final(self).tlb_state().page() == old(self).tlb_state().page(),
            tlb_after(old(self).tlb_state(), final(self).tlb_state(), addr.0, is_write),
            ({
                let si = cache_set_index(addr.0, old(self).set_list().len());
                let set = lru_entries(old(self).set_list()[si]);
                let line = line_of(addr.0);
                let line_hit = key_position(set, line) is Some;
                let vpn = addr.0 & page_mask_spec(old(self).tlb_state().page());
                let tsi = tlb_set_index(old(self).tlb_state().page(), vpn, old(self).tlb_state().set_list().len());
                let tlb_hit = key_position(lru_entries(old(self).tlb_state().set_list()[tsi]), vpn) is Some;
                let tlb_latency = if tlb_hit { TLB_HIT_LATENCY } else { ptw_latency_spec(old(self).tlb_state().page()) };
                let dram = bank_latency(old(self).dram()@[address_bank(addr.0) as int], addr.0);
                &&& r == access_latency(tlb_hit, tlb_latency, line_hit, is_write, dram)
                &&& lru_entries(final(self).set_list()[si]) == if line_hit {
                    after_get(set, line)
                } else {
                    after_put(set, lru_capacity(old(self).set_list()[si]), line, 0)
                }
                &&& forall|s: int| 0 <= s < old(self).set_list().len() && s != si ==> #[trigger] final(self).set_list()[s]
                    == old(self).set_list()[s]
                &&& lru_capacity(final(self).set_list()[si]) == lru_capacity(old(self).set_list()[si])
                &&& final(self).dram()@ == if line_hit && !is_write {
                    old(self).dram()@
                } else {
                    old(self).dram()@.update(address_bank(addr.0) as int, Some(address_row(addr.0)))
                }
                &&& final(self).counters() == if line_hit {
                    if is_write {
                        CacheStats { write_hits: (old(self).counters().write_hits + 1) as usize, ..old(self).counters() }
                    } else {
                        CacheStats { read_hits: (old(self).counters().read_hits + 1) as usize, ..old(self).counters() }
                    }
                } else {
                    if is_write {
                        CacheStats { write_misses: (old(self).counters().write_misses + 1) as usize, ..old(self).counters() }
                    } else {
                        CacheStats { read_misses: (old(self).counters().read_misses + 1) as usize, ..old(self).counters() }
                    }
                }
            }),
    {
        let ghost old_sets = self.cache_sets@;
        let set_idx = self.get_set_idx(addr);
        let (paddr, tlb_latency, tlb_hit) = self.tlb.translate(addr, is_write);
        let line = addr_to_line(paddr);
        let mut set = lru_new(1);
        std::mem::swap(&mut set, &mut self.cache_sets[set_idx]);
        proof {
            assert(lru_wf(old_sets[set_idx as int]));
        }
        let hit = lru_get(&mut set, line).is_some();
        if hit {
            if is_write {
                self.stats.write_hits += 1;
            } else {
                self.stats.read_hits += 1;
            }
        } else {
            lru_put(&mut set, line, 0);
            if is_write {
                self.stats.write_misses += 1;
            } else {
                self.stats.read_misses += 1;
            }
        }
        let ghost updated = set;
        std::mem::swap(&mut set, &mut self.cache_sets[set_idx]);
        proof {
            assert forall|s: int| 0 <= s < self.cache_sets@.len() implies #[trigger] lru_wf(self.cache_sets@[s]) by {
                assert(lru_wf(old(self).set_list()[s]));
                if s != set_idx {
                    assert(self.cache_sets@[s] == old_sets[s]);
                } else {
                    assert(self.cache_sets@[s] == updated);
                    assert(lru_wf(updated));
                }
            }
        }
        let base = if tlb_hit {
            Self::HIT_LATENCY
        } else {
            tlb_latency + Self::HIT_LATENCY
        };
        proof {
            assert(self.tlb.wf());
            assert(self.rank@.len() == BANKS_PER_RANK);
        }
        proof {
            crate::simulate::memory::lemma_address_bank_bound(paddr.0);
        }
        let latency = if hit && !is_write {
            base
        } else {
            base + self.rank.transaction(paddr, is_write)
        };
        proof {
            assert(forall|q: int| 0 <= q < self.set_list().len() ==> lru_wf(#[trigger] self.set_list()[q]));
            assert(self.set_list().len() > 0);
            assert(self.dram()@.len() == BANKS_PER_RANK);
            assert(self.tlb_state().wf());
            assert(self.wf());
        }
        latency
    }

    /// Reads the word at `addr`; returns the latency in cycles.
    pub fn read(&mut self, addr: VirtualAddress) -> (r: usize)
        requires
            old(self).wf(),
            tlb_stats_room(old(self).tlb_state().counters()),
            cache_stats_room(old(self).counters()),
        ensures
            final(self).wf(),
            set_access(*old(self), *final(self), addr.0, false, r),
    {
        self.access(addr, false)
    }

    /// Writes the word at `addr` (through to DRAM); returns the latency in cycles.
    pub fn write(&mut self, addr: VirtualAddress) -> (r: usize)
        requires
            old(self).wf(),
            tlb_stats_room(old(self).tlb_state().counters()),
            cache_stats_room(old(self).counters()),
        ensures
            final(self).wf(),
            set_access(*old(self), *final(self), addr.0, true, r),
    {
        self.access(addr, true)
    }
}

/// An access to `addr` (a write when `is_write`) took cache `pre` to
/// `post` and returned `r`: the lines took an LRU lookup of the line of
/// `addr` (a hit, or an insert that may evict the least recently used
/// line), the TLB translated `addr`, the DRAM rank served the access
/// unless it was a read hit, one counter grew, and `r` is the latency of
/// that path.
pub open spec fn fa_access(pre: FullyAssociativeCache, post: FullyAssociativeCache, addr: u64, is_write: bool, r: usize) -> bool {
    let line = line_of(addr);
    let line_hit = key_position(lru_entries(pre.lines()), line) is Some;
    &&& r == latency_before(pre.tlb_state(), line_hit, is_write, pre.dram()@, addr)
    &&& lru_entries(post.lines()) == lines_after(pre.lines(), line)
    &&& lru_capacity(post.lines()) == lru_capacity(pre.lines())
    &&& tlb_after(pre.tlb_state(), post.tlb_state(), addr, is_write)
    &&& post.dram()@ == dram_after(pre.dram()@, line_hit, is_write, addr)
    &&& post.counters() == counted(pre.counters(), line_hit, is_write)
}

/// A fully associative, write-through, write-allocate data cache with a
/// TLB and a DRAM rank behind it: one LRU set of lines.
pub struct FullyAssociativeCache {
    cache: LruMap,
    rank: DDR4Rank,
    pub stats: CacheStats,
    pub tlb: Tlb,
}

impl FullyAssociativeCache {
    /// Latency of a cache hit in cycles.
    pub const HIT_LATENCY: usize = 4;

    /// The lines cached.
    pub closed spec fn lines(&self) -> LruMap {
        self.cache
    }

    /// The DRAM rank behind the cache.
    pub closed spec fn dram(&self) -> DDR4Rank {
        self.rank
    }

    /// The hit and miss counters.
    pub closed spec fn counters(&self) -> CacheStats {
        self.stats
    }

    /// The TLB.
    pub closed spec fn tlb_state(&self) -> Tlb {
        self.tlb
    }

    /// The set of lines is a well-formed LRU map, the rank has all its
    /// banks, and the TLB is well formed.
    pub open spec fn wf(&self) -> bool {
        &&& lru_wf(self.lines())
        &&& self.dram()@.len() == BANKS_PER_RANK
        &&& self.tlb_state().wf()
    }

    /// An empty cache of `capacity` bytes, a whole number of lines.
    pub fn new(capacity: usize, rank_option: DDR4RankOption, page_size: PageSize) -> (r: Self)
        requires
            capacity >= LINE_SIZE && capacity % LINE_SIZE == 0,
            rank_option is Naive,
        ensures
            r.wf(),
            lru_capacity(r.lines()) == capacity / LINE_SIZE,
            lru_entries(r.lines()).len() == 0,
            r.tlb_state().page() == page_size,
            r.counters() == (CacheStats { read_hits: 0, read_misses: 0, write_hits: 0, write_misses: 0 }),
    {
        FullyAssociativeCache {
            cache: lru_new(capacity / LINE_SIZE),
            stats: CacheStats::new(),
            rank: DDR4Rank::new(rank_option),
            tlb: Tlb::new(page_size),
        }
    }

    /// Accesses the word at `addr`; returns the latency in cycles.
    fn access(&mut self, addr: VirtualAddress, is_write: bool) -> (r: usize)
        requires
            old(self).wf(),
            tlb_stats_room(old(self).tlb_state().counters()),
            cache_stats_room(old(self).counters()),
        ensures
            final(self).wf(),
            final(self).tlb_state().page() == old(self).tlb_state().page(),
            tlb_after(old(self).tlb_state(), final(self).tlb_state(), addr.0, is_write),
            ({
                let set = lru_entries(old(self).lines());
                let line = line_of(addr.0);
                let line_hit = key_position(set, line) is Some;
                let vpn = addr.0 & page_mask_spec(old(self).tlb_state().page());
                let tsi = tlb_set_index(old(self).tlb_state().page(), vpn, old(self).tlb_state().set_list().len());
                let tlb_hit = key_position(lru_entries(old(self).tlb_state().set_list()[tsi]), vpn) is Some;
                let tlb_latency = if tlb_hit { TLB_HIT_LATENCY } else { ptw_latency_spec(old(self).tlb_state().page()) };
                let dram = bank_latency(old(self).dram()@[address_bank(addr.0) as int], addr.0);
                &&& r == access_latency(tlb_hit, tlb_latency, line_hit, is_write, dram)
                &&& lru_entries(final(self).lines()) == if line_hit {
                    after_get(set, line)
                } else {
                    after_put(set, lru_capacity(old(self).lines()), line, 0)
                }
                &&& lru_capacity(final(self).lines()) == lru_capacity(old(self).lines())
                &&& final(self).dram()@ == if line_hit && !is_write {
                    old(self).dram()@
                } else {
                    old(self).dram()@.update(address_bank(addr.0) as int, Some(address_row(addr.0)))
                }
                &&& final(self).counters() == if line_hit {
                    if is_write {
                        CacheStats { write_hits: (old(self).counters().write_hits + 1) as usize, ..old(self).counters() }
                    } else {
                        CacheStats { read_hits: (old(self).counters().read_hits + 1) as usize, ..old(self).counters() }
                    }
                } else {
                    if is_write {
                        CacheStats { write_misses: (old(self).counters().write_misses + 1) as usize, ..old(self).counters() }
                    } else {
                        CacheStats { read_misses: (old(self).counters().read_misses + 1) as usize, ..old(self).counters() }
                    }
                }
            }),
    {
        let (paddr, tlb_latency, tlb_hit) = self.tlb.translate(addr, is_write);
        let line = addr_to_line(paddr);
        let hit = lru_get(&mut self.cache, line).is_some();
        if hit {
            if is_write {
                self.stats.write_hits += 1;
            } else {
                self.stats.read_hits += 1;
            }
        } else {
            lru_put(&mut self.cache, line, 0);
            if is_write {
                self.stats.write_misses += 1;
            } else {
                self.stats.read_misses += 1;
            }
        }
        let base = if tlb_hit {
            Self::HIT_LATENCY
        } else {
            tlb_latency + Self::HIT_LATENCY
        };
        proof {
            crate::simulate::memory::lemma_address_bank_bound(paddr.0);
        }
        if hit && !is_write {
            base
        } else {
            base + self.rank.transaction(paddr, is_write)
        }
    }

    /// Reads the word at `addr`; returns the latency in cycles.
    pub fn read(&mut self, addr: VirtualAddress) -> (r: usize)
        requires
            old(self).wf(),
            tlb_stats_room(old(self).tlb_state().counters()),
            cache_stats_room(old(self).counters()),
        ensures
            final(self).wf(),
            fa_access(*old(self), *final(self), addr.0, false, r),
    {
        self.access(addr, false)
    }

    /// Writes the word at `addr` (through to DRAM); returns the latency in cycles.
    pub fn write(&mut self, addr: VirtualAddress) -> (r: usize)
        requires
            old(self).wf(),
            tlb_stats_room(old(self).tlb_state().counters()),
            cache_stats_room(old(self).counters()),
        ensures
            final(self).wf(),
            fa_access(*old(self), *final(self), addr.0, true, r),
    {
        self.access(addr, true)
    }
}

} // verus!
