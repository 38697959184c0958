//! Data caches indexed and tagged by address, with no TLB, over a naive
//! DDR4 rank.  A hit costs the hit latency; a miss allocates the line
//! (evicting the least recently used one of its set when full) and costs
//! a DRAM transaction.  The latency an access would have can be asked
//! without changing anything.
use vstd::prelude::*;
use crate::simulate::cache::{counted, lines_after, CacheStats, cache_stats_room};
use crate::simulate::lru_cache::{
    LruMap, key_position, lru_capacity, lru_contains, lru_entries, lru_get, lru_new, lru_put, lru_wf,
};
use crate::simulate::memory::{
    addr_to_line, address_bank, address_row, bank_latency, line_of, DDR4RankNaive, PhysicalAddress,
    BANKS_PER_RANK, LINE_SIZE,
};

verus! {

/// Latency of a hit, in cycles.
pub const DATA_CACHE_HIT_LATENCY: usize = 4;

/// The latency of accessing `addr` when its line is cached or not: the hit
/// latency, or the latency of the DRAM bank of `addr`.
pub open spec fn line_latency(cached: bool, dram: Seq<Option<u16>>, addr: u64) -> usize {
    if cached {
        DATA_CACHE_HIT_LATENCY
    } else {
        bank_latency(dram[address_bank(addr) as int], addr)
    }
}

/// An access to `addr` took the lines of its set from `pre` to `post`,
/// the rank from `dpre` to `dpost` and the counters from `spre` to
/// `spost`, and returned `r`: a hit refreshes the line and leaves the
/// rank; a miss inserts the line and opens the row of `addr` in its bank.
pub open spec fn line_access(
    pre: LruMap,
    post: LruMap,
    dpre: Seq<Option<u16>>,
    dpost: Seq<Option<u16>>,
    spre: CacheStats,
    spost: CacheStats,
    addr: u64,
    is_write: bool,
    r: usize,
) -> bool {
    let line = line_of(addr);
    let hit = key_position(lru_entries(pre), line) is Some;
    &&& r == line_latency(hit, dpre, addr)
    &&& lru_entries(post) == lines_after(pre, line)
    &&& lru_capacity(post) == lru_capacity(pre)
    &&& spost == counted(spre, hit, is_write)
    &&& dpost == if hit {
        dpre
    } else {
        dpre.update(address_bank(addr) as int, Some(address_row(addr)))
    }
}

/// A fully associative data cache: one LRU set of lines.
pub struct FullyAssociativeCache {
    cache: LruMap,
    rank: DDR4RankNaive,
    pub stats: CacheStats,
}

impl FullyAssociativeCache {
    /// The hit and miss counters.
    pub closed spec fn counters(&self) -> CacheStats {
        self.stats
    }

    /// Latency of a hit, in cycles.
    pub const HIT_LATENCY: usize = 4;

    /// The lines cached.
    pub closed spec fn lines(&self) -> LruMap {
        self.cache
    }

    /// The open row of each bank of the rank behind the cache.
    pub closed spec fn dram(&self) -> Seq<Option<u16>> {
        self.rank@
    }

    /// The lines form a well-formed LRU map and the rank has all its banks.
    pub open spec fn wf(&self) -> bool {
        &&& lru_wf(self.lines())
        &&& self.dram().len() == BANKS_PER_RANK
    }

    /// An empty cache of `capacity` bytes, a whole number of lines.
    pub fn new(capacity: usize) -> (r: Self)
        requires
            capacity >= LINE_SIZE && capacity % LINE_SIZE == 0,
        ensures
            r.wf(),
            lru_capacity(r.lines()) == capacity / LINE_SIZE,
            lru_entries(r.lines()).len() == 0,
            r.dram() == Seq::new(BANKS_PER_RANK as nat, |i: int| None::<u16>),
            r.counters() == (CacheStats { read_hits: 0, read_misses: 0, write_hits: 0, write_misses: 0 }),
    {
        FullyAssociativeCache { cache: lru_new(capacity / LINE_SIZE), rank: DDR4RankNaive::new(), stats: CacheStats::new() }
    }

    fn access(&mut self, addr: u64, is_write: bool) -> (r: usize)
        requires
            old(self).wf(),
            cache_stats_room(old(self).counters()),
        ensures
            final(self).wf(),
            line_access(
                old(self).lines(),
                final(self).lines(),
                old(self).dram(),
                final(self).dram(),
                old(self).counters(),
                final(self).counters(),
                addr,
                is_write,
                r,
            ),
    {
        let line = addr_to_line(PhysicalAddress(addr));
        if lru_get(&mut self.cache, line).is_some() {
            if is_write {
                self.stats.write_hits += 1;
            } else {
                self.stats.read_hits += 1;
            }
            Self::HIT_LATENCY
        } else {
            lru_put(&mut self.cache, line, 0);
            if is_write {
                self.stats.write_misses += 1;
            } else {
                self.stats.read_misses += 1;
            }
            proof {
                crate::simulate::memory::lemma_address_bank_bound(addr);
            }
            self.rank.transaction(PhysicalAddress(addr), is_write)
        }
    }

    /// Reads the word at `addr`; returns the latency in cycles.
    pub fn read(&mut self, addr: u64) -> (r: usize)
        requires
            old(self).wf(),
            cache_stats_room(old(self).counters()),
        ensures
            final(self).wf(),
            line_access(
                old(self).lines(),
                final(self).lines(),
                old(self).dram(),
                final(self).dram(),
                old(self).counters(),
                final(self).counters(),
                addr,
                false,
                r,
            ),
    {
        self.access(addr, false)
    }

    /// Writes the word at `addr`; returns the latency in cycles.
    pub fn write(&mut self, addr: u64) -> (r: usize)
        requires
            old(self).wf(),
            cache_stats_room(old(self).counters()),
        ensures
            final(self).wf(),
            line_access(
                old(self).lines(),
                final(self).lines(),
                old(self).dram(),
                final(self).dram(),
                old(self).counters(),
                final(self).counters(),
                addr,
                true,
                r,
            ),
    {
        self.access(addr, true)
    }

    /// The latency a read of `addr` would have; nothing changes.
    pub fn read_latency(&self, addr: u64) -> (r: usize)
        requires
            self.wf(),
        ensures
            r == line_latency(key_position(lru_entries(self.lines()), line_of(addr)) is Some, self.dram(), addr),
    {
        if lru_contains(&self.cache, addr_to_line(PhysicalAddress(addr))) {
            Self::HIT_LATENCY
        } else {
            proof {
                crate::simulate::memory::lemma_address_bank_bound(addr);
            }
            self.rank.transaction_latency(PhysicalAddress(addr))
        }
    }

    /// The latency a write of `addr` would have; nothing changes.
    pub fn write_latency(&self, addr: u64) -> (r: usize)
        requires
            self.wf(),
        ensures
            r == line_latency(key_position(lru_entries(self.lines()), line_of(addr)) is Some, self.dram(), addr),
    {
        self.read_latency(addr)
    }
}

/// The set that holds `addr` among `n` sets.
pub open spec fn data_set_index(addr: u64, n: nat) -> int {
    (line_of(addr) as int) % (n as int)
}

/// A set-associative data cache: LRU sets of lines, the set of a line
/// chosen by its number modulo the number of sets.
pub struct SetAssociativeCache {
    cache_sets: Vec<LruMap>,
    rank: DDR4RankNaive,
    pub stats: CacheStats,
}

/// An access to `addr` took the cache from `pre` to `post` and returned
/// `r`: the set of `addr` was accessed as `line_access` says, and no other
/// set changed.
pub open spec fn set_line_access(pre: SetAssociativeCache, post: SetAssociativeCache, addr: u64, is_write: bool, r: usize) -> bool {
    let n = pre.set_list().len();
    let si = data_set_index(addr, n);
    &&& post.set_list().len() == n
    &&& forall|s: int| 0 <= s < n && s != si ==> #[trigger] post.set_list()[s] == pre.set_list()[s]
    &&& line_access(
        pre.set_list()[si],
        post.set_list()[si],
        pre.dram(),
        post.dram(),
        pre.counters(),
        post.counters(),
        addr,
        is_write,
        r,
    )
}

impl SetAssociativeCache {
    /// The hit and miss counters.
    pub closed spec fn counters(&self) -> CacheStats {
        self.stats
    }

    /// The hit and miss counters.
    pub fn get_stats(&self) -> (r: CacheStats)
        ensures
            r == self.counters(),
    {
        self.stats
    }

    /// Latency of a hit, in cycles.
    pub const HIT_LATENCY: usize = 4;

    /// The sets, in order.
    pub closed spec fn set_list(&self) -> Seq<LruMap> {
        self.cache_sets@
    }

    /// The open row of each bank of the rank behind the cache.
    pub closed spec fn dram(&self) -> Seq<Option<u16>> {
        self.rank@
    }

    /// There is a set, every set is a well-formed LRU map, and the rank has
    /// all its banks.
    pub open spec fn wf(&self) -> bool {
        &&& self.set_list().len() > 0
        &&& forall|s: int| 0 <= s < self.set_list().len() ==> lru_wf(#[trigger] self.set_list()[s])
        &&& self.dram().len() == BANKS_PER_RANK
    }

    /// An empty cache of `num_sets` sets of `num_ways` lines.
    pub fn new(num_sets: usize, num_ways: usize) -> (r: Self)
        requires
            num_sets > 0,
            num_ways > 0,
        ensures
            r.wf(),
            r.set_list().len() == num_sets,
            forall|s: int| 0 <= s < num_sets ==> lru_capacity(#[trigger] r.set_list()[s]) == num_ways
                && lru_entries(r.set_list()[s]).len() == 0,
            r.dram() == Seq::new(BANKS_PER_RANK as nat, |i: int| None::<u16>),
            r.counters() == (CacheStats { read_hits: 0, read_misses: 0, write_hits: 0, write_misses: 0 }),
    {
        let mut cache_sets: Vec<LruMap> = Vec::new();
        let mut i: usize = 0;
        while i < num_sets
            invariant
                i <= num_sets,
                num_ways > 0,
                cache_sets@.len() == i,
                forall|s: int| 0 <= s < i ==> lru_wf(#[trigger] cache_sets@[s]),
                forall|s: int| 0 <= s < i ==> lru_capacity(#[trigger] cache_sets@[s]) == num_ways,
                forall|s: int| 0 <= s < i ==> lru_entries(#[trigger] cache_sets@[s]).len() == 0,
            decreases num_sets - i,
        {
            let c = lru_new(num_ways);
            cache_sets.push(c);
            proof {
                assert(cache_sets@[i as int] == c);
            }
            i += 1;
        }
        SetAssociativeCache { cache_sets, rank: DDR4RankNaive::new(), stats: CacheStats::new() }
    }

    fn get_set_idx(&self, addr: u64) -> (r: usize)
        requires
            self.set_list().len() > 0,
        ensures
            r as int == data_set_index(addr, self.set_list().len()),
            r < self.set_list().len(),
    {
        let line = addr_to_line(PhysicalAddress(addr));
        (line % (self.cache_sets.len() as u64)) as usize
    }

    fn access(&mut self, addr: u64, is_write: bool) -> (r: usize)
        requires
            old(self).wf(),
            cache_stats_room(old(self).counters()),
        ensures
            final(self).wf(),
            set_line_access(*old(self), *final(self), addr, is_write, r),
    {
        let ghost old_sets = self.cache_sets@;
        let set_idx = self.get_set_idx(addr);
        let line = addr_to_line(PhysicalAddress(addr));
        let mut set = lru_new(1);
        std::mem::swap(&mut set, &mut self.cache_sets[set_idx]);
        proof {
            assert(set == old_sets[set_idx as int]);
            assert(lru_wf(old_sets[set_idx as int]));
        }
        let hit = lru_get(&mut set, line).is_some();
        if !hit {
            lru_put(&mut set, line, 0);
        }
        let ghost updated = set;
        std::mem::swap(&mut set, &mut self.cache_sets[set_idx]);
        proof {
            assert(self.cache_sets@ == old_sets.update(set_idx as int, updated));
            assert forall|s: int| 0 <= s < self.cache_sets@.len() implies #[trigger] lru_wf(self.cache_sets@[s]) by {
                assert(lru_wf(old(self).set_list()[s]));
            }
            crate::simulate::memory::lemma_address_bank_bound(addr);
        }
        if hit {
            if is_write {
                self.stats.write_hits += 1;
            } else {
                self.stats.read_hits += 1;
            }
            Self::HIT_LATENCY
        } else {
            if is_write {
                self.stats.write_misses += 1;
            } else {
                self.stats.read_misses += 1;
            }
            self.rank.transaction(PhysicalAddress(addr), is_write)
        }
    }

    /// Reads the word at `addr`; returns the latency in cycles.
    pub fn read(&mut self, addr: u64) -> (r: usize)
        requires
            old(self).wf(),
            cache_stats_room(old(self).counters()),
        ensures
            final(self).wf(),
            set_line_access(*old(self), *final(self), addr, false, r),
    {
        self.access(addr, false)
    }

    /// Writes the word at `addr`; returns the latency in cycles.
    pub fn write(&mut self, addr: u64) -> (r: usize)
        requires
            old(self).wf(),
            cache_stats_room(old(self).counters()),
        ensures
            final(self).wf(),
            set_line_access(*old(self), *final(self), addr, true, r),
    {
        self.access(addr, true)
    }

    /// The latency a read of `addr` would have; nothing changes.
    pub fn read_latency(&self, addr: u64) -> (r: usize)
        requires
            self.wf(),
        ensures
            r == line_latency(
                key_position(lru_entries(self.set_list()[data_set_index(addr, self.set_list().len())]), line_of(addr))
                    is Some,
                self.dram(),
                addr,
            ),
    {
        let set_idx = self.get_set_idx(addr);
        if lru_contains(&self.cache_sets[set_idx], addr_to_line(PhysicalAddress(addr))) {
            Self::HIT_LATENCY
        } else {
            proof {
                crate::simulate::memory::lemma_address_bank_bound(addr);
            }
            self.rank.transaction_latency(PhysicalAddress(addr))
        }
    }

    /// The latency a write of `addr` would have; nothing changes.
    pub fn write_latency(&self, addr: u64) -> (r: usize)
        requires
            self.wf(),
        ensures
            r == line_latency(
                key_position(lru_entries(self.set_list()[data_set_index(addr, self.set_list().len())]), line_of(addr))
                    is Some,
                self.dram(),
                addr,
            ),
    {
        self.read_latency(addr)
    }
}

} // verus!
