//! The memory layout model: a memory map holds ordered banks, a bank holds
//! ordered sectors, and every sector carries an accessibility capability
//! set.  The tree is built once by the descriptor parser and queried
//! read-only afterwards.

use vstd::prelude::*;
use vstd::arithmetic::mul::lemma_mul_nonnegative;

verus! {

/// The sector may be read.
pub const ACCESS_READ: u32 = 0b001;

/// The sector may be written.
pub const ACCESS_WRITE: u32 = 0b010;

/// The sector may be erased.
pub const ACCESS_ERASE: u32 = 0b100;

/// A capability set over the three independent bits read, write and erase,
/// kept as a bitmask so that combinations are first-class values.
#[derive(Clone, Copy, Debug, PartialEq, Eq, Structural)]
pub struct Accessibility {
    pub bits: u32,
}

impl Accessibility {
    /// Whether every capability of `req` is present in `self`.
    pub open spec fn permits(self, req: Accessibility) -> bool {
        req.bits & self.bits == req.bits
    }

    /// The empty capability set: no access at all.
    pub fn none() -> (r: Self)
        ensures
            r.bits == 0,
    {
        Accessibility { bits: 0 }
    }

    /// Read only.
    pub fn read() -> (r: Self)
        ensures
            r.bits == ACCESS_READ,
    {
        Accessibility { bits: ACCESS_READ }
    }

    /// Write only.
    pub fn write() -> (r: Self)
        ensures
            r.bits == ACCESS_WRITE,
    {
        Accessibility { bits: ACCESS_WRITE }
    }

    /// Erase only.
    pub fn erase() -> (r: Self)
        ensures
            r.bits == ACCESS_ERASE,
    {
        Accessibility { bits: ACCESS_ERASE }
    }

    /// Read and write.
    pub fn read_write() -> (r: Self)
        ensures
            r.bits == ACCESS_READ | ACCESS_WRITE,
    {
        Accessibility { bits: ACCESS_READ | ACCESS_WRITE }
    }

    /// Read and erase.
    pub fn read_erase() -> (r: Self)
        ensures
            r.bits == ACCESS_READ | ACCESS_ERASE,
    {
        Accessibility { bits: ACCESS_READ | ACCESS_ERASE }
    }

    /// Write and erase.
    pub fn write_erase() -> (r: Self)
        ensures
            r.bits == ACCESS_WRITE | ACCESS_ERASE,
    {
        Accessibility { bits: ACCESS_WRITE | ACCESS_ERASE }
    }

    /// Read, write and erase: the full set.
    pub fn read_write_erase() -> (r: Self)
        ensures
            r.bits == ACCESS_READ | ACCESS_WRITE | ACCESS_ERASE,
    {
        Accessibility { bits: ACCESS_READ | ACCESS_WRITE | ACCESS_ERASE }
    }

    /// The union of two capability sets.
    pub fn union(self, other: Accessibility) -> (r: Self)
        ensures
            r.bits == self.bits | other.bits,
    {
        Accessibility { bits: self.bits | other.bits }
    }
}

/// A contiguous run of `block_count` blocks of `block_size` bytes each,
/// starting at byte `address`.  `index` is the ordinal of the sector's
/// first block within the enclosing bank, not the sector's own ordinal.
#[derive(Clone, Copy, Debug, PartialEq, Eq, Structural)]
pub struct Sector {
    /// The ordinal of the first block of the sector within its bank.
    pub index: usize,
    /// The byte address at which the sector starts.
    pub address: usize,
    /// How many blocks the sector holds.
    pub block_count: usize,
    /// The size in bytes of each block.
    pub block_size: usize,
    /// What may be done with the sector's blocks.
    pub access: Accessibility,
}

/// The mathematical value of a sector: the same fields, over the integers.
#[verifier::ext_equal]
pub struct SectorView {
    pub index: int,
    pub address: int,
    pub block_count: int,
    pub block_size: int,
    pub access: Accessibility,
}

impl SectorView {
    /// The number of bytes the sector covers.
    pub open spec fn total_size(self) -> int {
        self.block_count * self.block_size
    }

    /// Whether the sector supports every capability of `req`.
    pub open spec fn is_accessible(self, req: Accessibility) -> bool {
        self.access.permits(req)
    }
}

impl View for Sector {
    type V = SectorView;

    open spec fn view(&self) -> SectorView {
        SectorView {
            index: self.index as int,
            address: self.address as int,
            block_count: self.block_count as int,
            block_size: self.block_size as int,
            access: self.access,
        }
    }
}

impl Sector {
    /// Creates a free-standing sector from the given parameters.
    pub fn new(
        index: usize,
        address: usize,
        block_count: usize,
        block_size: usize,
        access: Accessibility,
    ) -> (r: Self)
        ensures
            r.index == index,
            r.address == address,
            r.block_count == block_count,
            r.block_size == block_size,
            r.access == access,
    {
        Sector { index, address, block_count, block_size, access }
    }

    /// Creates the sector that directly continues this one: its first block
    /// follows this sector's last block, and its address follows this
    /// sector's last byte.
    pub fn next(&self, block_count: usize, block_size: usize, access: Accessibility) -> (r: Self)
        requires
            self.index + self.block_count <= usize::MAX,
            self.address + self@.total_size() <= usize::MAX,
        ensures
            r.index == self.index + self.block_count,
            r.address == self.address + self@.total_size(),
            r.block_count == block_count,
            r.block_size == block_size,
            r.access == access,
    {
        let index = self.index + self.block_count;
        let address = self.address + (self.block_count * self.block_size);
        Self::new(index, address, block_count, block_size, access)
    }

    /// Whether the sector supports every capability of `access`.
    pub fn is_accessible(&self, access: Accessibility) -> (r: bool)
        ensures
            r == self@.is_accessible(access),
    {
        access.bits & self.access.bits == access.bits
    }

    /// The number of bytes the sector covers.
    pub fn total_size(&self) -> (r: usize)
        requires
            self@.total_size() <= usize::MAX,
        ensures
            r == self@.total_size(),
    {
        self.block_count * self.block_size
    }
}

/// The views of a vector of sectors.
pub open spec fn sector_views(v: Seq<Sector>) -> Seq<SectorView> {
    v.map_values(|s: Sector| s@)
}

/// The sum in bytes of the given sectors' sizes.
pub open spec fn sectors_total_size(ss: Seq<SectorView>) -> int
    decreases ss.len(),
{
    if ss.len() == 0 {
        0
    } else {
        ss.first().total_size() + sectors_total_size(ss.drop_first())
    }
}

/// A sum of sector sizes is never negative when no sector has negative
/// dimensions.
pub proof fn lemma_sectors_total_size_nonneg(ss: Seq<SectorView>)
    requires
        forall|k: int| 0 <= k < ss.len() ==> (#[trigger] ss[k]).block_count >= 0
            && ss[k].block_size >= 0,
    ensures
        sectors_total_size(ss) >= 0,
    decreases ss.len(),
{
    if ss.len() > 0 {
        lemma_mul_nonnegative(ss.first().block_count, ss.first().block_size);
        lemma_sectors_total_size_nonneg(ss.drop_first());
    }
}

/// An ordered run of sectors sharing one address space.  The bank's own
/// `index` is its ordinal in the descriptor, so that two banks may describe
/// overlapping address ranges.
#[derive(Debug)]
pub struct Bank {
    /// The ordinal of the bank in the descriptor.
    pub index: usize,
    /// The base address of the bank.
    pub address: usize,
    /// The sectors of the bank, in descriptor order.
    pub sectors: Vec<Sector>,
}

/// The mathematical value of a bank.
#[verifier::ext_equal]
pub struct BankView {
    pub index: int,
    pub address: int,
    pub sectors: Seq<SectorView>,
}

impl View for Bank {
    type V = BankView;

    open spec fn view(&self) -> BankView {
        BankView {
            index: self.index as int,
            address: self.address as int,
            sectors: sector_views(self.sectors@),
        }
    }
}

/// The chaining invariant of a parsed bank: every sector after the first
/// starts at the address where the previous sector ends, and its block
/// index continues where the previous sector's blocks end.
pub open spec fn bank_chained(b: BankView) -> bool {
    forall|k: int| 1 <= k < b.sectors.len() ==> ((#[trigger] b.sectors[k]).address == b.sectors[
        k - 1
    ].address + b.sectors[k - 1].total_size() && b.sectors[k].index == b.sectors[k - 1].index
        + b.sectors[k - 1].block_count)
}

impl Bank {
    /// Creates a bank from an explicit index, base address and sector run.
    pub fn new(index: usize, address: usize, sectors: Vec<Sector>) -> (r: Self)
        ensures
            r.index == index,
            r.address == address,
            r@.sectors == sector_views(sectors@),
    {
        Bank { index, address, sectors }
    }

    /// Creates a bank whose base address is its first sector's address, or
    /// zero when the sector run is empty.
    pub fn from_sectors(index: usize, sectors: Vec<Sector>) -> (r: Self)
        ensures
            r.index == index,
            r@.sectors == sector_views(sectors@),
            sectors@.len() > 0 ==> r.address == sectors@[0].address,
            sectors@.len() == 0 ==> r.address == 0,
    {
        let address = if sectors.len() > 0 {
            sectors[0].address
        } else {
            0
        };
        Self::new(index, address, sectors)
    }

    /// The sectors of the bank, in descriptor order.
    pub fn sectors(&self) -> (r: &[Sector])
        ensures
            sector_views(r@) == self@.sectors,
    {
        self.sectors.as_slice()
    }

    /// The number of bytes covered by all the bank's sectors together.
    pub fn total_size(&self) -> (r: usize)
        requires
            sectors_total_size(self@.sectors) <= usize::MAX,
        ensures
            r == sectors_total_size(self@.sectors),
    {
        bank_sectors_total(&self.sectors)
    }
}

/// Sums the sizes of the given sectors.
fn bank_sectors_total(sectors: &Vec<Sector>) -> (r: usize)
    requires
        sectors_total_size(sector_views(sectors@)) <= usize::MAX,
    ensures
        r == sectors_total_size(sector_views(sectors@)),
{
    let ghost views = sector_views(sectors@);
    proof {
        assert(views.skip(0) =~= views);
    }
    let mut acc: usize = 0;
    let mut i: usize = 0;
    while i < sectors.len()
        invariant
            i <= sectors@.len(),
            views == sector_views(sectors@),
            views.len() == sectors@.len(),
            sectors_total_size(views) <= usize::MAX,
            acc + sectors_total_size(views.skip(i as int)) == sectors_total_size(views),
        decreases sectors@.len() - i,
    {
        proof {
            assert(views.skip(i as int).first() == views[i as int]);
            assert(views.skip(i as int).drop_first() =~= views.skip(i as int + 1));
            assert(forall|k: int|
                0 <= k < views.skip(i as int + 1).len() ==> (#[trigger] views.skip(
                    i as int + 1,
                )[k]).block_count >= 0 && views.skip(i as int + 1)[k].block_size >= 0);
            lemma_sectors_total_size_nonneg(views.skip(i as int + 1));
        }
        let s = &sectors[i];
        let sz = s.block_count * s.block_size;
        acc = acc + sz;
        i += 1;
    }
    proof {
        assert(views.skip(views.len() as int).len() == 0);
    }
    acc
}

/// The views of a vector of banks.
pub open spec fn bank_views(v: Seq<Bank>) -> Seq<BankView> {
    v.map_values(|b: Bank| b@)
}

/// The sum in bytes of all the sectors of all the given banks.
pub open spec fn banks_total_size(bs: Seq<BankView>) -> int
    decreases bs.len(),
{
    if bs.len() == 0 {
        0
    } else {
        sectors_total_size(bs.first().sectors) + banks_total_size(bs.drop_first())
    }
}

/// A sum of bank sizes is never negative when no sector has negative
/// dimensions.
pub proof fn lemma_banks_total_size_nonneg(bs: Seq<BankView>)
    requires
        forall|j: int, k: int|
            0 <= j < bs.len() && 0 <= k < (#[trigger] bs[j]).sectors.len() ==> (
            #[trigger] bs[j].sectors[k]).block_count >= 0 && bs[j].sectors[k].block_size >= 0,
    ensures
        banks_total_size(bs) >= 0,
    decreases bs.len(),
{
    if bs.len() > 0 {
        lemma_sectors_total_size_nonneg(bs.first().sectors);
        lemma_banks_total_size_nonneg(bs.drop_first());
    }
}

/// A named memory area: the label from the descriptor plus its banks, in
/// descriptor order.
#[derive(Debug)]
pub struct MemoryMap {
    /// The human-readable name of the memory area.
    pub name: String,
    /// The banks of the map, in descriptor order.
    pub banks: Vec<Bank>,
}

/// The mathematical value of a memory map.
#[verifier::ext_equal]
pub struct MemoryMapView {
    pub name: Seq<char>,
    pub banks: Seq<BankView>,
}

impl View for MemoryMap {
    type V = MemoryMapView;

    open spec fn view(&self) -> MemoryMapView {
        MemoryMapView { name: self.name@, banks: bank_views(self.banks@) }
    }
}

impl MemoryMap {
    /// Creates a memory map containing the given banks.
    pub fn new(name: String, banks: Vec<Bank>) -> (r: Self)
        ensures
            r@.name == name@,
            r@.banks == bank_views(banks@),
    {
        MemoryMap { name, banks }
    }

    /// The banks of the map, in descriptor order.
    pub fn banks(&self) -> (r: &[Bank])
        ensures
            bank_views(r@) == self@.banks,
    {
        self.banks.as_slice()
    }

    /// The number of bytes covered by every sector of every bank.
    pub fn total_size(&self) -> (r: usize)
        requires
            banks_total_size(self@.banks) <= usize::MAX,
        ensures
            r == banks_total_size(self@.banks),
    {
        let ghost views = bank_views(self.banks@);
        proof {
            assert(views.skip(0) =~= views);
        }
        let mut acc: usize = 0;
        let mut i: usize = 0;
        while i < self.banks.len()
            invariant
                i <= self.banks@.len(),
                views == bank_views(self.banks@),
                views.len() == self.banks@.len(),
                banks_total_size(views) <= usize::MAX,
                acc + banks_total_size(views.skip(i as int)) == banks_total_size(views),
            decreases self.banks@.len() - i,
        {
            proof {
                assert(views.skip(i as int).first() == views[i as int]);
                assert(views.skip(i as int).drop_first() =~= views.skip(i as int + 1));
                assert(forall|j: int, k: int|
                    0 <= j < views.skip(i as int + 1).len() && 0 <= k < (#[trigger] views.skip(
                        i as int + 1,
                    )[j]).sectors.len() ==> (#[trigger] views.skip(
                        i as int + 1,
                    )[j].sectors[k]).block_count >= 0 && views.skip(
                        i as int + 1,
                    )[j].sectors[k].block_size >= 0);
                lemma_banks_total_size_nonneg(views.skip(i as int + 1));
                assert(forall|k: int|
                    0 <= k < views[i as int].sectors.len() ==> (
                    #[trigger] views[i as int].sectors[k]).block_count >= 0
                        && views[i as int].sectors[k].block_size >= 0);
                lemma_sectors_total_size_nonneg(views[i as int].sectors);
            }
            let sz = self.banks[i].total_size();
            acc = acc + sz;
            i += 1;
        }
        proof {
            assert(views.skip(views.len() as int).len() == 0);
        }
        acc
    }
}

/// A fully accessible sector accepts every combination of the three
/// capabilities, while a read-only sector refuses any query that asks for
/// write access.
pub proof fn lemma_access_queries(s: SectorView, req: Accessibility)
    requires
        req.bits & (ACCESS_READ | ACCESS_WRITE | ACCESS_ERASE) == req.bits,
    ensures
        s.access.bits == (ACCESS_READ | ACCESS_WRITE | ACCESS_ERASE) ==> s.is_accessible(req),
        s.access.bits == ACCESS_READ && req.bits & ACCESS_WRITE != 0 ==> !s.is_accessible(req),
{
    let r = req.bits;
    assert((r & (1u32 | 2u32 | 4u32) == r && r & 2u32 != 0) ==> r & 1u32 != r) by (bit_vector);
}

} // verus!
