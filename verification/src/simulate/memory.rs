use vstd::prelude::*;

verus! {

/// A virtual address as seen by the processor.
#[derive(Clone, Copy, Debug, PartialEq, Eq, Hash, Structural)]
pub struct VirtualAddress(pub u64);

/// A physical address after TLB translation.
#[derive(Clone, Copy, Debug, PartialEq, Eq, Hash, Structural)]
pub struct PhysicalAddress(pub u64);

/// Supported x86_64 page sizes.
#[derive(Clone, Copy, Debug, PartialEq, Eq, Structural)]
pub enum PageSize {
    FourKB,
    TwoMB,
    FourMB,
    OneGB,
}

/// log2 of the page size in bytes.
pub open spec fn page_shift_spec(p: PageSize) -> u32 {
    match p {
        PageSize::FourKB => 12,
        PageSize::TwoMB => 21,
        PageSize::FourMB => 22,
        PageSize::OneGB => 30,
    }
}

/// Number of TLB entries for a page size.
pub open spec fn tlb_entries_spec(p: PageSize) -> usize {
    match p {
        PageSize::FourKB => 64,
        PageSize::TwoMB | PageSize::FourMB => 32,
        PageSize::OneGB => 8,
    }
}

/// Number of TLB ways for a page size.
pub open spec fn tlb_ways_spec(p: PageSize) -> usize {
    match p {
        PageSize::FourKB => 4,
        PageSize::TwoMB | PageSize::FourMB => 4,
        PageSize::OneGB => 8,
    }
}

/// The mask that keeps the page-number bits of an address.
pub open spec fn page_mask_spec(p: PageSize) -> u64 {
    !(((1u64 << page_shift_spec(p)) - 1) as u64)
}

/// Latency in cycles of a page table walk: one step per radix-tree level.
pub open spec fn ptw_latency_spec(p: PageSize) -> usize {
    match p {
        PageSize::FourKB => 30,
        PageSize::TwoMB | PageSize::FourMB => 24,
        PageSize::OneGB => 18,
    }
}

impl PageSize {
    /// log2 of the page size in bytes.
    pub fn page_shift(self) -> (r: u32)
        ensures
            r == page_shift_spec(self),
    {
        match self {
            PageSize::FourKB => 12,
            PageSize::TwoMB => 21,
            PageSize::FourMB => 22,
            PageSize::OneGB => 30,
        }
    }

    /// Number of TLB entries for this page size.
    pub fn tlb_entries(self) -> (r: usize)
        ensures
            r == tlb_entries_spec(self),
    {
        match self {
            PageSize::FourKB => 64,
            PageSize::TwoMB | PageSize::FourMB => 32,
            PageSize::OneGB => 8,
        }
    }

    /// Number of TLB ways (sets = entries / ways).
    pub fn tlb_ways(self) -> (r: usize)
        ensures
            r == tlb_ways_spec(self),
    {
        match self {
            PageSize::FourKB => 4,
            PageSize::TwoMB | PageSize::FourMB => 4,
            PageSize::OneGB => 8,
        }
    }

    /// The mask that keeps the page-number bits of an address.
    pub fn page_mask(self) -> (r: u64)
        ensures
            r == page_mask_spec(self),
    {
        let s = self.page_shift();
        assert(1u64 << s >= 1) by (bit_vector)
            requires
                s <= 30,
        ;
        !((1u64 << s) - 1)
    }

    /// The virtual page number of `vaddr`, kept in place (low bits cleared).
    pub fn vpn(self, vaddr: VirtualAddress) -> (r: u64)
        ensures
            r == vaddr.0 & page_mask_spec(self),
    {
        vaddr.0 & self.page_mask()
    }
}

/// Dummy page table walker: virtual and physical addresses coincide.
pub struct PageTableWalker;

impl PageTableWalker {
    /// Latency in cycles for a page table walk.
    pub fn latency(page_size: PageSize) -> (r: usize)
        ensures
            r == ptw_latency_spec(page_size),
    {
        match page_size {
            PageSize::FourKB => 30,
            PageSize::TwoMB | PageSize::FourMB => 24,
            PageSize::OneGB => 18,
        }
    }

    /// Walks the page table: the identity mapping, at the walk latency.
    pub fn walk(&self, vaddr: VirtualAddress, page_size: PageSize) -> (r: (PhysicalAddress, usize))
        ensures
            r.0.0 == vaddr.0,
            r.1 == ptw_latency_spec(page_size),
    {
        (PhysicalAddress(vaddr.0), Self::latency(page_size))
    }
}

/// Hit and miss counters of a TLB.
#[derive(Default, Debug, Clone, Copy)]
pub struct TlbStats {
    pub read_hits: usize,
    pub read_misses: usize,
    pub write_hits: usize,
    pub write_misses: usize,
}

impl TlbStats {
    /// Read and write hits together.
    pub fn total_hits(&self) -> (r: usize)
        requires
            self.read_hits + self.write_hits <= usize::MAX,
        ensures
            r == self.read_hits + self.write_hits,
    {
        self.read_hits + self.write_hits
    }

    /// Read and write misses together.
    pub fn total_misses(&self) -> (r: usize)
        requires
            self.read_misses + self.write_misses <= usize::MAX,
        ensures
            r == self.read_misses + self.write_misses,
    {
        self.read_misses + self.write_misses
    }
}

/// log2 of the cache line size.
pub const LOG_LINE_SIZE: u64 = 6;
/// The cache line size in bytes.
pub const LINE_SIZE: usize = 64;

/// The cache line that holds a physical address.
pub open spec fn line_of(addr: u64) -> u64 {
    addr >> LOG_LINE_SIZE
}

/// The cache line that holds a physical address.
pub fn addr_to_line(addr: PhysicalAddress) -> (r: u64)
    ensures
        r == line_of(addr.0),
{
    addr.0 >> LOG_LINE_SIZE
}

// The DDR4 address mapping, from the least significant bit:
// block offset [5:0], column [12:6], channel [13], bank [17:14],
// DIMM [18], rank [19], row [35:20], rest [63:36].

/// The channel bit of a physical address.
pub open spec fn address_channel(a: u64) -> u8 {
    ((a >> 13u64) & 1) as u8
}

/// The bank bits of a physical address.
pub open spec fn address_bank(a: u64) -> u8 {
    ((a >> 14u64) & 0xf) as u8
}

/// A bank index names one of the banks of a rank.
pub proof fn lemma_address_bank_bound(a: u64)
    ensures
        address_bank(a) < 16,
{
    assert(((a >> 14u64) & 0xf) < 16) by (bit_vector);
}

/// The DIMM bit of a physical address.
pub open spec fn address_dimm(a: u64) -> u8 {
    ((a >> 18u64) & 1) as u8
}

/// The rank bit of a physical address.
pub open spec fn address_rank(a: u64) -> u8 {
    ((a >> 19u64) & 1) as u8
}

/// The row bits of a physical address.
pub open spec fn address_row(a: u64) -> u16 {
    ((a >> 20u64) & 0xffff) as u16
}

/// The column bits of a physical address.
pub open spec fn address_col(a: u64) -> u8 {
    ((a >> 6u64) & 0x7f) as u8
}

/// The block offset bits of a physical address.
pub open spec fn address_blkoffset(a: u64) -> u8 {
    (a & 0x3f) as u8
}

/// The DRAM coordinates of an address are its bit fields, from the least
/// significant bit: block offset [5:0], column [12:6], channel [13], bank
/// [17:14], DIMM [18], rank [19] and row [35:20].  Put back at their
/// places they give the low 36 bits of the address, so two addresses that
/// differ in any of those bits differ in some coordinate.
pub proof fn lemma_address_fields(a: u64)
    ensures
        address_blkoffset(a) < 64,
        address_col(a) < 128,
        address_channel(a) < 2,
        address_bank(a) < 16,
        address_dimm(a) < 2,
        address_rank(a) < 2,
        a % 0x10_0000_0000 == address_blkoffset(a) + 64 * address_col(a) + 0x2000 * address_channel(a) + 0x4000
            * address_bank(a) + 0x4_0000 * address_dimm(a) + 0x8_0000 * address_rank(a) + 0x10_0000 * address_row(
            a,
        ),
{
    assert((a & 0x3f) < 64) by (bit_vector);
    assert(((a >> 6u64) & 0x7f) < 128) by (bit_vector);
    assert(((a >> 13u64) & 1) < 2) by (bit_vector);
    assert(((a >> 14u64) & 0xf) < 16) by (bit_vector);
    assert(((a >> 18u64) & 1) < 2) by (bit_vector);
    assert(((a >> 19u64) & 1) < 2) by (bit_vector);
    assert(((a >> 20u64) & 0xffff) < 0x10000) by (bit_vector);
    assert(a % 0x10_0000_0000 == (a & 0x3f) + 64 * ((a >> 6u64) & 0x7f) + 0x2000 * ((a >> 13u64) & 1) + 0x4000 * ((a
        >> 14u64) & 0xf) + 0x4_0000 * ((a >> 18u64) & 1) + 0x8_0000 * ((a >> 19u64) & 1) + 0x10_0000 * ((a >> 20u64)
        & 0xffff)) by (bit_vector);
}

/// The row of an address is its bits 35..20: addresses in the same row
/// agree on those bits, whatever the others.
pub proof fn lemma_address_row(a: u64)
    ensures
        address_row(a) == (a / 0x10_0000) % 0x1_0000,
{
    assert(((a >> 20u64) & 0xffff) == (a / 0x10_0000) % 0x1_0000) by (bit_vector);
    assert(((a >> 20u64) & 0xffff) < 0x10000) by (bit_vector);
}

/// A physical address split into its DRAM coordinates.
#[derive(Debug, Clone, Copy)]
pub struct AddressMapping(pub u64);

impl AddressMapping {
    /// Offset within the cache block.
    pub fn blkoffset(&self) -> (r: u8)
        ensures
            r == address_blkoffset(self.0),
            r < 64,
    {
        let a = self.0;
        assert((a & 0x3f) < 64) by (bit_vector);
        (a & 0x3f) as u8
    }

    /// Column within the row.
    pub fn col(&self) -> (r: u8)
        ensures
            r == address_col(self.0),
            r < 128,
    {
        let a = self.0;
        assert(((a >> 6u64) & 0x7f) < 128) by (bit_vector);
        ((a >> 6u64) & 0x7f) as u8
    }

    /// Memory channel.
    pub fn channel(&self) -> (r: u8)
        ensures
            r == address_channel(self.0),
            r < 2,
    {
        let a = self.0;
        assert(((a >> 13u64) & 1) < 2) by (bit_vector);
        ((a >> 13u64) & 1) as u8
    }

    /// Bank within the rank.
    pub fn bank(&self) -> (r: u8)
        ensures
            r == address_bank(self.0),
            r < 16,
    {
        let a = self.0;
        assert(((a >> 14u64) & 0xf) < 16) by (bit_vector);
        ((a >> 14u64) & 0xf) as u8
    }

    /// DIMM within the channel.
    pub fn dimm(&self) -> (r: u8)
        ensures
            r == address_dimm(self.0),
            r < 2,
    {
        let a = self.0;
        assert(((a >> 18u64) & 1) < 2) by (bit_vector);
        ((a >> 18u64) & 1) as u8
    }

    /// Rank within the DIMM.
    pub fn rank(&self) -> (r: u8)
        ensures
            r == address_rank(self.0),
            r < 2,
    {
        let a = self.0;
        assert(((a >> 19u64) & 1) < 2) by (bit_vector);
        ((a >> 19u64) & 1) as u8
    }

    /// Row within the bank.
    pub fn row(&self) -> (r: u16)
        ensures
            r == address_row(self.0),
    {
        ((self.0 >> 20u64) & 0xffff) as u16
    }

    /// The owner id of an address: its rank id (channel, DIMM and rank bits).
    pub fn get_owner_id(&self) -> (r: usize)
        ensures
            r == address_channel(self.0) + 2 * address_dimm(self.0) + 4 * address_rank(self.0),
            r < 8,
    {
        let mut rank_id = RankId(0);
        rank_id.set_channel(self.channel());
        rank_id.set_dimm(self.dimm());
        rank_id.set_rank(self.rank());
        let r = rank_id.0;
        proof {
            let c = address_channel(self.0);
            let d = address_dimm(self.0);
            let k = address_rank(self.0);
            assert(r == c + 2 * d + 4 * k && r < 8) by (bit_vector)
                requires
                    c < 2,
                    d < 2,
                    k < 2,
                    r == (((((0u8 & !1u8) | (c & 1)) & !2u8) | ((d & 1) << 1u8)) & !4u8) | ((k & 1)
                        << 2u8),
            ;
        }
        r as usize
    }
}

/// Identifies a DIMM: bit 0 is the channel, bit 1 the DIMM within the channel.
#[derive(Clone, Copy, PartialEq, Eq, PartialOrd, Ord, Hash, Debug, Structural)]
pub struct DimmId(pub u8);

impl DimmId {
    /// The channel bit.
    pub fn channel(&self) -> (r: u8)
        ensures
            r == self.0 & 1,
            r < 2,
    {
        let v = self.0;
        assert(v & 1 < 2) by (bit_vector);
        v & 1
    }

    /// The DIMM bit.
    pub fn dimm(&self) -> (r: u8)
        ensures
            r == (self.0 >> 1u8) & 1,
            r < 2,
    {
        let v = self.0;
        assert((v >> 1u8) & 1 < 2) by (bit_vector);
        (v >> 1u8) & 1
    }

    /// Sets the channel bit to the low bit of `v`.
    pub fn set_channel(&mut self, v: u8)
        ensures
            final(self).0 == (old(self).0 & !1u8) | (v & 1),
    {
        self.0 = (self.0 & !1u8) | (v & 1);
    }

    /// Sets the DIMM bit to the low bit of `v`.
    pub fn set_dimm(&mut self, v: u8)
        ensures
            final(self).0 == (old(self).0 & !2u8) | ((v & 1) << 1u8),
    {
        self.0 = (self.0 & !2u8) | ((v & 1) << 1u8);
    }

    /// The DIMM that holds a rank.
    pub fn from_rank(rank_id: RankId) -> (r: DimmId)
        ensures
            r.0 == rank_id.0 & 3,
    {
        let mut dimm_id = DimmId(0);
        dimm_id.set_channel(rank_id.channel());
        dimm_id.set_dimm(rank_id.dimm());
        let r = dimm_id.0;
        let v = rank_id.0;
        assert(r == v & 3) by (bit_vector)
            requires
                r == (((0u8 & !1u8) | ((v & 1) & 1)) & !2u8) | ((((v >> 1u8) & 1) & 1) << 1u8),
        ;
        dimm_id
    }
}

/// Identifies a rank: bit 0 channel, bit 1 DIMM, bit 2 rank within the DIMM.
#[derive(Clone, Copy, PartialEq, Eq, PartialOrd, Ord, Hash, Debug, Structural)]
pub struct RankId(pub u8);

impl RankId {
    /// The channel bit.
    pub fn channel(&self) -> (r: u8)
        ensures
            r == self.0 & 1,
            r < 2,
    {
        let v = self.0;
        assert(v & 1 < 2) by (bit_vector);
        v & 1
    }

    /// The DIMM bit.
    pub fn dimm(&self) -> (r: u8)
        ensures
            r == (self.0 >> 1u8) & 1,
            r < 2,
    {
        let v = self.0;
        assert((v >> 1u8) & 1 < 2) by (bit_vector);
        (v >> 1u8) & 1
    }

    /// The rank bit.
    pub fn rank(&self) -> (r: u8)
        ensures
            r == (self.0 >> 2u8) & 1,
            r < 2,
    {
        let v = self.0;
        assert((v >> 2u8) & 1 < 2) by (bit_vector);
        (v >> 2u8) & 1
    }

    /// Sets the channel bit to the low bit of `v`.
    pub fn set_channel(&mut self, v: u8)
        ensures
            final(self).0 == (old(self).0 & !1u8) | (v & 1),
    {
        self.0 = (self.0 & !1u8) | (v & 1);
    }

    /// Sets the DIMM bit to the low bit of `v`.
    pub fn set_dimm(&mut self, v: u8)
        ensures
            final(self).0 == (old(self).0 & !2u8) | ((v & 1) << 1u8),
    {
        self.0 = (self.0 & !2u8) | ((v & 1) << 1u8);
    }

    /// Sets the rank bit to the low bit of `v`.
    pub fn set_rank(&mut self, v: u8)
        ensures
            final(self).0 == (old(self).0 & !4u8) | ((v & 1) << 2u8),
    {
        self.0 = (self.0 & !4u8) | ((v & 1) << 2u8);
    }
}

/// Row-miss latency: tRP + tRCD + tCAS + 4 (double data rate, burst of 8).
pub const ROW_MISS_LATENCY: usize = 70;
/// Row-hit latency: tCAS + 4.
pub const ROW_HIT_LATENCY: usize = 26;

/// The latency of an access to a bank whose open row is `current_row`.
pub open spec fn bank_latency(current_row: Option<u16>, addr: u64) -> usize {
    if current_row == Some(address_row(addr)) {
        ROW_HIT_LATENCY
    } else {
        ROW_MISS_LATENCY
    }
}

/// The open-row state of one DRAM bank.
#[derive(Clone, Default, Debug)]
pub struct BankState {
    pub current_row: Option<u16>,
}

impl BankState {
    /// Performs a transaction and returns the latency in cycles; the row of
    /// `addr` is open afterwards.
    pub fn transaction(&mut self, addr: PhysicalAddress) -> (r: usize)
        ensures
            r == bank_latency(old(self).current_row, addr.0),
            final(self).current_row == Some(address_row(addr.0)),
    {
        let mapping = AddressMapping(addr.0);
        let row = mapping.row();
        let latency = match self.current_row {
            Some(cur) => if cur == row {
                ROW_HIT_LATENCY
            } else {
                ROW_MISS_LATENCY
            },
            None => ROW_MISS_LATENCY,
        };
        self.current_row = Some(row);
        latency
    }
}

/// The number of banks in a rank.
pub const BANKS_PER_RANK: usize = 16;

/// A DDR4 rank modelled as independent open-row banks.
#[derive(Debug, Clone)]
pub struct DDR4RankNaive {
    pub banks: Vec<BankState>,
}

impl View for DDR4RankNaive {
    type V = Seq<Option<u16>>;

    open spec fn view(&self) -> Seq<Option<u16>> {
        self.banks@.map_values(|b: BankState| b.current_row)
    }
}

impl DDR4RankNaive {
    /// Sixteen banks with no open row.
    pub fn new() -> (r: Self)
        ensures
            r@ == Seq::new(BANKS_PER_RANK as nat, |i: int| None::<u16>),
    {
        let mut banks: Vec<BankState> = Vec::new();
        let mut i: usize = 0;
        while i < BANKS_PER_RANK
            invariant
                i <= BANKS_PER_RANK,
                banks@.len() == i,
                forall|j: int| 0 <= j < i ==> banks@[j].current_row is None,
            decreases BANKS_PER_RANK - i,
        {
            banks.push(BankState { current_row: None });
            i += 1;
        }
        let r = DDR4RankNaive { banks };
        assert(r@ =~= Seq::new(BANKS_PER_RANK as nat, |i: int| None::<u16>));
        r
    }

    /// The latency a transaction on `addr` would have now; nothing changes.
    pub fn transaction_latency(&self, addr: PhysicalAddress) -> (r: usize)
        requires
            self@.len() == BANKS_PER_RANK,
        ensures
            r == bank_latency(self@[address_bank(addr.0) as int], addr.0),
    {
        let mapping = AddressMapping(addr.0);
        let bank_idx = mapping.bank() as usize;
        let row = mapping.row();
        match self.banks[bank_idx].current_row {
            Some(cur) => if cur == row {
                ROW_HIT_LATENCY
            } else {
                ROW_MISS_LATENCY
            },
            None => ROW_MISS_LATENCY,
        }
    }

    /// Performs a transaction on the bank that `addr` maps to.
    pub fn transaction(&mut self, addr: PhysicalAddress, is_write: bool) -> (r: usize)
        requires
            old(self)@.len() == BANKS_PER_RANK,
        ensures
            r == bank_latency(old(self)@[address_bank(addr.0) as int], addr.0),
            final(self)@ == old(self)@.update(address_bank(addr.0) as int, Some(address_row(addr.0))),
    {
        let mapping = AddressMapping(addr.0);
        let bank_idx = mapping.bank() as usize;
        let cur = self.banks[bank_idx].current_row;
        let mut bank = BankState { current_row: cur };
        let r = bank.transaction(addr);
        self.banks.set(bank_idx, bank);
        assert(self@ =~= old(self)@.update(address_bank(addr.0) as int, Some(address_row(addr.0))));
        r
    }
}

/// The DRAM model behind a rank.
#[derive(Clone, Debug)]
pub enum DDR4RankOption {
    Naive,
    DRAMsim3 { config_file: String, output_dir: String },
}

/// A DDR4 rank.
#[derive(Clone, Debug)]
pub struct DDR4Rank {
    pub inner: DDR4RankNaive,
}

impl View for DDR4Rank {
    type V = Seq<Option<u16>>;

    open spec fn view(&self) -> Seq<Option<u16>> {
        self.inner@
    }
}

impl DDR4Rank {
    /// A rank with all banks closed. Only the naive bank model is available
    /// here: the cycle-accurate simulator is an external C++ library.
    pub fn new(option: DDR4RankOption) -> (r: Self)
        requires
            option is Naive,
        ensures
            r@ == Seq::new(BANKS_PER_RANK as nat, |i: int| None::<u16>),
    {
        DDR4Rank { inner: DDR4RankNaive::new() }
    }

    /// A rank backed by the default (naive) model.
    pub fn default_rank() -> (r: Self)
        ensures
            r@ == Seq::new(BANKS_PER_RANK as nat, |i: int| None::<u16>),
    {
        Self::new(DDR4RankOption::Naive)
    }

    /// Performs a transaction and returns its latency.
    pub fn transaction(&mut self, addr: PhysicalAddress, is_write: bool) -> (r: usize)
        requires
            old(self)@.len() == BANKS_PER_RANK,
        ensures
            r == bank_latency(old(self)@[address_bank(addr.0) as int], addr.0),
            final(self)@ == old(self)@.update(address_bank(addr.0) as int, Some(address_row(addr.0))),
    {
        self.inner.transaction(addr, is_write)
    }
}

} // verus!
