//! Page-grained physical memory: a descriptor array tracking 4 KiB frames,
//! and the Sv39 three-level page-table builder that works on those frames.
//!
//! The machine's heap region is modeled by [`Memory`]: one descriptor per
//! page (two bits: Taken and Last), and the content of every frame viewed as
//! a 512-entry table, which is the only shape the kernel ever reads back.

use vstd::prelude::*;

verus! {

/// Pages are 4096 bytes: 2 to the `PAGE_ORDER`.
pub const PAGE_ORDER: u64 = 12;

pub const PAGE_SIZE: u64 = 4096;

/// Alignment (set to a multiple of some power of two). `order` is the
/// exponent, and the function always rounds up.
pub open spec fn spec_align_address(address: u64, order: u64) -> u64 {
    ((address + (((1u64 << order) - 1) as u64)) as u64) & (!(((1u64 << order) - 1) as u64))
}

pub fn align_address(address: u64, order: u64) -> (r: u64)
    requires
        order < 64,
        address + ((1u64 << order) - 1) <= u64::MAX,
    ensures
        r == spec_align_address(address, order),
        r >= address,
        r & (((1u64 << order) - 1) as u64) == 0,
        r <= address + ((1u64 << order) - 1),
{
    proof {
        lemma_align_address_properties(address, order);
        assert(1u64 << order >= 1) by (bit_vector)
            requires
                order < 64,
        ;
    }
    let mask = (1u64 << order) - 1;
    let r = (address + mask) & !mask;
    r
}

/// Rounding up to a power of two lands on a multiple of it, at or above the
/// input, and less than one full step above it.
pub proof fn lemma_align_address_properties(address: u64, order: u64)
    requires
        order < 64,
        address + ((1u64 << order) - 1) <= u64::MAX,
    ensures
        spec_align_address(address, order) >= address,
        spec_align_address(address, order) & (((1u64 << order) - 1) as u64) == 0,
        spec_align_address(address, order) <= address + ((1u64 << order) - 1),
{
    let mask = ((1u64 << order) - 1) as u64;
    assert(1u64 << order >= 1) by (bit_vector)
        requires
            order < 64,
    ;
    assert(mask == (1u64 << order) - 1);
    assert(((address + mask) as u64) & (!mask) & mask == 0) by (bit_vector);
    assert(address <= 0xffff_ffff_ffff_ffffu64 - mask ==> ((address + mask) as u64) & (!mask)
        >= address) by (bit_vector)
        requires
            order < 64,
            mask == ((1u64 << order) - 1) as u64,
    ;
    assert(((address + mask) as u64) & (!mask) <= ((address + mask) as u64)) by (bit_vector);
    assert(address <= 0xffff_ffff_ffff_ffffu64 - mask ==> ((address + mask) as u64)
        == address + mask) by (bit_vector);
    assert(address + mask <= 0xffff_ffff_ffff_ffffu64);
}

/// Descriptor bits: a taken page, and the last page of its run.
#[derive(Clone, Copy, PartialEq, Eq, Structural)]
pub enum PageDescriptorFlags {
    Taken,
    Last,
}

impl PageDescriptorFlags {
    pub open spec fn spec_value(self) -> u8 {
        match self {
            PageDescriptorFlags::Taken => 1,
            PageDescriptorFlags::Last => 2,
        }
    }

    pub fn value(self) -> (v: u8)
        ensures
            v == self.spec_value(),
    {
        match self {
            PageDescriptorFlags::Taken => 1,
            PageDescriptorFlags::Last => 2,
        }
    }
}

pub open spec fn desc_taken(flags: u8) -> bool {
    flags & 1 == 1
}

pub open spec fn desc_last(flags: u8) -> bool {
    flags & 2 == 2
}

/// One byte of bookkeeping per 4 KiB page.
#[derive(Clone, Copy, PartialEq, Eq, Structural)]
pub struct PageDescriptor {
    pub flags: u8,
}

impl PageDescriptor {
    pub fn new() -> (d: PageDescriptor)
        ensures
            d.flags == 0,
    {
        PageDescriptor { flags: 0 }
    }

    pub fn is_taken(&self) -> (r: bool)
        ensures
            r == desc_taken(self.flags),
    {
        self.flags & 1 == 1
    }

    pub fn is_last(&self) -> (r: bool)
        ensures
            r == desc_last(self.flags),
    {
        self.flags & 2 == 2
    }

    /// The raw descriptor byte.
    pub fn get_flags_word(&self) -> (r: u8)
        ensures
            r == self.flags,
    {
        self.flags
    }

    pub fn clear(&mut self)
        ensures
            final(self).flags == 0,
    {
        self.flags = 0;
    }

    pub fn set_flag(&mut self, flag: PageDescriptorFlags)
        ensures
            final(self).flags == old(self).flags | flag.spec_value(),
    {
        self.flags = self.flags | flag.value();
    }
}

/// Every descriptor is either clear (0), taken (1), or taken-and-last (3).
pub open spec fn descs_wf(d: Seq<PageDescriptor>) -> bool {
    forall|j: int|
        0 <= j < d.len() ==> (#[trigger] d[j].flags == 0 || d[j].flags == 1 || d[j].flags == 3)
}

/// Pages `[i, i + n)` are all free.
pub open spec fn window_free(d: Seq<PageDescriptor>, i: int, n: int) -> bool {
    forall|j: int| i <= j < i + n ==> !desc_taken(#[trigger] d[j].flags)
}

/// The allocator's scan can find a window of `n` free pages (start
/// positions `0 ..= len - n`, so a window ending at the last page counts).
pub open spec fn can_alloc(d: Seq<PageDescriptor>, n: int) -> bool {
    exists|i: int| 0 <= i <= d.len() - n && window_free(d, i, n)
}

/// The descriptor array after stamping a run of `n` pages at `i`:
/// Taken on all of them, and Last on the final one.
pub open spec fn stamp_run(d: Seq<PageDescriptor>, i: int, n: int) -> Seq<PageDescriptor> {
    Seq::new(
        d.len(),
        |j: int|
            if i <= j < i + n - 1 {
                (PageDescriptor { flags: 1 })
            } else if j == i + n - 1 {
                (PageDescriptor { flags: 3 })
            } else {
                d[j]
            },
    )
}

/// The descriptor array after clearing pages `[i, e]`.
pub open spec fn clear_run(d: Seq<PageDescriptor>, i: int, e: int) -> Seq<PageDescriptor> {
    Seq::new(
        d.len(),
        |j: int|
            if i <= j <= e {
                (PageDescriptor { flags: 0 })
            } else {
                d[j]
            },
    )
}

/// A well-formed allocation run: Taken from `i` up to `e`, with Last set
/// exactly on `e`.
pub open spec fn is_alloc_run(d: Seq<PageDescriptor>, i: int, e: int) -> bool {
    &&& 0 <= i <= e < d.len()
    &&& forall|j: int| i <= j < e ==> #[trigger] d[j].flags == 1
    &&& d[e].flags == 3
}

/// The end of the allocation run starting at `i`.
pub open spec fn spec_run_end(d: Seq<PageDescriptor>, i: int) -> int {
    choose|e: int| is_alloc_run(d, i, e)
}

/// A run has only one end: Last terminates it.
pub proof fn lemma_run_end_unique(d: Seq<PageDescriptor>, i: int, e1: int, e2: int)
    requires
        is_alloc_run(d, i, e1),
        is_alloc_run(d, i, e2),
    ensures
        e1 == e2,
{
    if e1 < e2 {
        assert(d[e1].flags == 1);
    }
    if e2 < e1 {
        assert(d[e2].flags == 1);
    }
}

/// Page-table entry flag values. `Empty` is the empty set; the convenience
/// combinations bundle the bits the kernel maps with.
#[derive(Clone, Copy, PartialEq, Eq, Structural)]
pub enum PageTableEntryFlags {
    Empty,
    Valid,
    Read,
    Write,
    Execute,
    User,
    Global,
    Access,
    Dirty,
    ReadWrite,
    ReadExecute,
    ReadWriteExecute,
    UserReadWrite,
    UserReadExecute,
    UserReadWriteExecute,
}

impl PageTableEntryFlags {
    pub open spec fn spec_value(self) -> u64 {
        match self {
            PageTableEntryFlags::Empty => 0,
            PageTableEntryFlags::Valid => 1,
            PageTableEntryFlags::Read => 2,
            PageTableEntryFlags::Write => 4,
            PageTableEntryFlags::Execute => 8,
            PageTableEntryFlags::User => 16,
            PageTableEntryFlags::Global => 32,
            PageTableEntryFlags::Access => 64,
            PageTableEntryFlags::Dirty => 128,
            PageTableEntryFlags::ReadWrite => 6,
            PageTableEntryFlags::ReadExecute => 10,
            PageTableEntryFlags::ReadWriteExecute => 14,
            PageTableEntryFlags::UserReadWrite => 22,
            PageTableEntryFlags::UserReadExecute => 26,
            PageTableEntryFlags::UserReadWriteExecute => 30,
        }
    }

    pub fn value(self) -> (v: u64)
        ensures
            v == self.spec_value(),
    {
        match self {
            PageTableEntryFlags::Empty => 0,
            PageTableEntryFlags::Valid => 1,
            PageTableEntryFlags::Read => 2,
            PageTableEntryFlags::Write => 4,
            PageTableEntryFlags::Execute => 8,
            PageTableEntryFlags::User => 16,
            PageTableEntryFlags::Global => 32,
            PageTableEntryFlags::Access => 64,
            PageTableEntryFlags::Dirty => 128,
            PageTableEntryFlags::ReadWrite => 6,
            PageTableEntryFlags::ReadExecute => 10,
            PageTableEntryFlags::ReadWriteExecute => 14,
            PageTableEntryFlags::UserReadWrite => 22,
            PageTableEntryFlags::UserReadExecute => 26,
            PageTableEntryFlags::UserReadWriteExecute => 30,
        }
    }
}

pub open spec fn entry_valid(e: u64) -> bool {
    e & 1 == 1
}

pub open spec fn entry_readable(e: u64) -> bool {
    e & 2 == 2
}

pub open spec fn entry_writable(e: u64) -> bool {
    e & 4 == 4
}

pub open spec fn entry_executable(e: u64) -> bool {
    e & 8 == 8
}

/// A leaf maps memory; a valid non-leaf is a branch to the next level.
pub open spec fn entry_leaf(e: u64) -> bool {
    entry_readable(e) || entry_writable(e)
}

/// The physical address a branch entry points at: the entry without its
/// ten low bits, shifted left by two.
pub open spec fn entry_physical_address(e: u64) -> u64 {
    (e & (!0x3ffu64)) << 2
}

/// One 64-bit Sv39 page-table entry:
/// `Reserved | PPN[2] | PPN[1] | PPN[0] | RSW | flag bits`.
#[derive(Clone, Copy, PartialEq, Eq, Structural)]
pub struct Sv39PageTableEntry {
    pub entry: u64,
}

impl Sv39PageTableEntry {
    pub fn is_valid(&self) -> (r: bool)
        ensures
            r == entry_valid(self.entry),
    {
        self.entry & 1 == 1
    }

    pub fn is_readable(&self) -> (r: bool)
        ensures
            r == entry_readable(self.entry),
    {
        self.entry & 2 == 2
    }

    pub fn is_writable(&self) -> (r: bool)
        ensures
            r == entry_writable(self.entry),
    {
        self.entry & 4 == 4
    }

    pub fn is_executable(&self) -> (r: bool)
        ensures
            r == entry_executable(self.entry),
    {
        self.entry & 8 == 8
    }

    pub fn get_physical_address(&self) -> (r: u64)
        ensures
            r == entry_physical_address(self.entry),
    {
        (self.entry & !0x3ffu64) << 2
    }

    pub fn is_leaf(&self) -> (r: bool)
        ensures
            r == entry_leaf(self.entry),
    {
        self.is_readable() || self.is_writable()
    }
}

/// One level of an Sv39 table: 512 entries covering 9 bits of the
/// virtual address.
pub struct Sv39PageTable {
    pub entries: Vec<Sv39PageTableEntry>,
}

impl Sv39PageTable {
    /// Sv39 translates through three levels.
    pub fn levels() -> (r: usize)
        ensures
            r == 3,
    {
        3
    }

    pub open spec fn wf(&self) -> bool {
        self.entries.len() == 512
    }

    pub open spec fn all_zero(&self) -> bool {
        forall|e: int| 0 <= e < self.entries.len() ==> #[trigger] self.entries[e].entry == 0
    }

    /// A fresh, zeroed table.
    pub fn new() -> (t: Sv39PageTable)
        ensures
            t.wf(),
            t.all_zero(),
    {
        let mut entries: Vec<Sv39PageTableEntry> = Vec::new();
        let mut k: usize = 0;
        while k < 512
            invariant
                k == entries.len(),
                k <= 512,
                forall|e: int| 0 <= e < k ==> #[trigger] entries[e].entry == 0,
            decreases 512 - k,
        {
            entries.push(Sv39PageTableEntry { entry: 0 });
            k = k + 1;
        }
        Sv39PageTable { entries }
    }
}

/// The page-grained memory of the machine: the allocation area starts at
/// `base` (page aligned), with one descriptor per page and every frame's
/// content viewed as a table of 512 entries.
pub struct Memory {
    pub base: u64,
    pub descriptors: Vec<PageDescriptor>,
    pub tables: Vec<Sv39PageTable>,
}

impl Memory {
    pub open spec fn page_count(&self) -> int {
        self.descriptors@.len() as int
    }

    /// The frame index an address within the allocation area falls in.
    pub open spec fn spec_page_index(&self, address: u64) -> int {
        (address - self.base) / (4096 as int)
    }

    /// The address of frame `i`.
    pub open spec fn page_address(&self, i: int) -> int {
        self.base + 4096 * i
    }

    pub open spec fn wf(&self) -> bool {
        &&& self.descriptors@.len() == self.tables@.len()
        &&& self.base % 4096 == 0
        &&& self.base + 4096 * self.page_count() <= 0x80_0000_0000
        &&& descs_wf(self.descriptors@)
        &&& forall|i: int| 0 <= i < self.tables@.len() ==> (#[trigger] self.tables@[i]).wf()
        &&& self.branches_ok()
    }

    /// A branch entry must point into the allocation area, page aligned,
    /// or the walk could not follow it.
    pub open spec fn branch_ok(&self, e: u64) -> bool {
        (entry_valid(e) && !entry_leaf(e)) ==> {
            let pa = entry_physical_address(e);
            &&& pa >= self.base
            &&& pa % 4096 == 0
            &&& self.spec_page_index(pa) < self.page_count()
        }
    }

    pub open spec fn branches_ok(&self) -> bool {
        forall|fi: int, ei: int|
            0 <= fi < self.page_count() && 0 <= ei < 512 ==> self.branch_ok(
                #[trigger] self.entry_at(fi, ei),
            )
    }

    /// An entry of the table held in frame `fi`.
    pub open spec fn entry_at(&self, fi: int, ei: int) -> u64 {
        self.tables@[fi].entries@[ei].entry
    }

    /// Set up the region: every page free, every frame zeroed.
    pub fn init(base: u64, n_pages: usize) -> (m: Memory)
        requires
            base % 4096 == 0,
            base + 4096 * (n_pages as int) <= 0x80_0000_0000,
        ensures
            m.wf(),
            m.base == base,
            m.page_count() == n_pages,
            forall|j: int| 0 <= j < n_pages ==> #[trigger] m.descriptors@[j].flags == 0,
            forall|i: int| 0 <= i < n_pages ==> (#[trigger] m.tables@[i]).all_zero(),
    {
        let mut descriptors: Vec<PageDescriptor> = Vec::new();
        let mut tables: Vec<Sv39PageTable> = Vec::new();
        let mut k: usize = 0;
        while k < n_pages
            invariant
                k == descriptors.len(),
                k == tables.len(),
                k <= n_pages,
                forall|j: int| 0 <= j < k ==> #[trigger] descriptors[j].flags == 0,
                forall|i: int| 0 <= i < k ==> (#[trigger] tables[i]).wf(),
                forall|i: int| 0 <= i < k ==> (#[trigger] tables[i]).all_zero(),
            decreases n_pages - k,
        {
            descriptors.push(PageDescriptor::new());
            tables.push(Sv39PageTable::new());
            k = k + 1;
        }
        let m = Memory { base, descriptors, tables };
        proof {
            assert forall|fi: int, ei: int|
                0 <= fi < m.page_count() && 0 <= ei < 512 implies m.branch_ok(
                #[trigger] m.entry_at(fi, ei),
            ) by {
                assert(m.tables@[fi].wf());
                assert(m.tables@[fi].all_zero());
                assert(m.tables@[fi].entries[ei].entry == 0);
                assert(m.entry_at(fi, ei) == 0);
                lemma_zero_entry();
            }
        }
        m
    }

    /// What a successful allocation of `n` pages returning `addr` did:
    /// the scan stopped at the first free window of `n` pages, stamped it,
    /// and returned its address.
    pub open spec fn alloc_post(
        old_d: Seq<PageDescriptor>,
        new_d: Seq<PageDescriptor>,
        base: u64,
        n: int,
        addr: u64,
    ) -> bool {
        let i = (addr - base) / (4096 as int);
        &&& addr == base + 4096 * i
        &&& 0 <= i <= old_d.len() - n
        &&& window_free(old_d, i, n)
        &&& forall|i2: int| 0 <= i2 < i ==> !window_free(old_d, i2, n)
        &&& new_d == stamp_run(old_d, i, n)
    }

    /// Allocate a contiguous run of `request_pages` pages: first-fit scan of
    /// the descriptors, stamping Taken on the run and Last on its final
    /// page. Returns the physical address of the first page, or nothing when
    /// no window exists.
    pub fn alloc_pages(&mut self, request_pages: usize) -> (r: Option<u64>)
        requires
            old(self).wf(),
            1 <= request_pages <= old(self).page_count(),
        ensures
            final(self).wf(),
            final(self).base == old(self).base,
            final(self).tables@ == old(self).tables@,
            r.is_some() == can_alloc(old(self).descriptors@, request_pages as int),
            r.is_none() ==> final(self).descriptors@ == old(self).descriptors@,
            r matches Some(addr) ==> Memory::alloc_post(
                old(self).descriptors@,
                final(self).descriptors@,
                old(self).base,
                request_pages as int,
                addr,
            ),
            forall|m: int|
                #[trigger] can_alloc(old(self).descriptors@, m) && m > request_pages ==> can_alloc(
                    final(self).descriptors@,
                    m - request_pages,
                ),
    {
        let n = request_pages;
        let len = self.descriptors.len();
        let mut i: usize = 0;
        while i <= len - n
            invariant
                self.wf(),
                *self == *old(self),
                n == request_pages,
                len == self.descriptors.len(),
                1 <= n <= len,
                0 <= i <= len - n + 1,
                forall|i2: int|
                    0 <= i2 < i ==> !window_free(self.descriptors@, i2, n as int),
            decreases len - n + 1 - i,
        {
            let mut found = true;
            let mut j: usize = i;
            while j < i + n
                invariant
                    self.wf(),
                    *self == *old(self),
                    len == self.descriptors.len(),
                    1 <= n <= len,
                    0 <= i <= len - n,
                    i <= j <= i + n,
                    i <= len - n,
                    found ==> forall|k: int|
                        i <= k < j ==> !desc_taken(#[trigger] self.descriptors@[k].flags),
                    !found ==> !window_free(self.descriptors@, i as int, n as int),
                decreases i + n - j,
            {
                if self.descriptors[j].is_taken() {
                    found = false;
                    j = i + n;
                } else {
                    j = j + 1;
                }
            }
            if found {
                proof {
                    assert(window_free(self.descriptors@, i as int, n as int));
                }
                let ghost old_d = self.descriptors@;
                let mut k: usize = i;
                while k < i + n - 1
                    invariant
                        len == self.descriptors.len(),
                        1 <= n <= len,
                        0 <= i <= len - n,
                        i <= k <= i + n - 1,
                        descs_wf(old_d),
                        old_d.len() == len,
                        window_free(old_d, i as int, n as int),
                        forall|j2: int|
                            i <= j2 < k ==> #[trigger] self.descriptors@[j2].flags == 1,
                        forall|j2: int|
                            0 <= j2 < len && !(i <= j2 < k) ==> #[trigger] self.descriptors@[j2]
                                == old_d[j2],
                        self.base == old(self).base,
                        self.tables@ == old(self).tables@,
                    decreases i + n - 1 - k,
                {
                    let mut pd = self.descriptors[k];
                    pd.set_flag(PageDescriptorFlags::Taken);
                    proof {
                        assert(old_d[k as int].flags == 0 || old_d[k as int].flags == 1
                            || old_d[k as int].flags == 3);
                        assert(!desc_taken(old_d[k as int].flags));
                        assert(old_d[k as int].flags != 1 && old_d[k as int].flags != 3) by {
                            assert(desc_taken(1u8) && desc_taken(3u8)) by (bit_vector);
                        }
                        assert(0u8 | 1u8 == 1u8) by (bit_vector);
                    }
                    self.descriptors[k] = pd;
                    k = k + 1;
                }
                let mut pd = self.descriptors[i + n - 1];
                pd.set_flag(PageDescriptorFlags::Taken);
                pd.set_flag(PageDescriptorFlags::Last);
                proof {
                    let e = i + n - 1;
                    assert(!desc_taken(old_d[e as int].flags));
                    assert(old_d[e as int].flags != 1 && old_d[e as int].flags != 3) by {
                        assert(desc_taken(1u8) && desc_taken(3u8)) by (bit_vector);
                    }
                    assert((0u8 | 1u8) | 2u8 == 3u8) by (bit_vector);
                }
                self.descriptors[i + n - 1] = pd;
                proof {
                    let ii = i as int;
                    let nn = n as int;
                    let s = stamp_run(old_d, ii, nn);
                    assert forall|j2: int| 0 <= j2 < s.len() implies self.descriptors@[j2]
                        == s[j2] by {
                        if ii <= j2 < ii + nn - 1 {
                            assert(self.descriptors@[j2].flags == 1);
                            assert(self.descriptors@[j2] == (PageDescriptor { flags: 1u8 }));
                        } else if j2 != ii + nn - 1 {
                            assert(self.descriptors@[j2] == old_d[j2]);
                        }
                    }
                    assert(self.descriptors@ =~= s);
                    assert(desc_taken(1u8) && desc_taken(3u8)) by (bit_vector);
                    assert(can_alloc(old_d, nn));
                    assert((4096 * ii) / (4096 as int) == ii) by (nonlinear_arith);
                    lemma_branches_ok_unchanged(*old(self), *self);
                    assert forall|m: int|
                        #[trigger] can_alloc(old_d, m) && m > nn implies can_alloc(
                        self.descriptors@,
                        m - nn,
                    ) by {
                        lemma_window_after_stamp(old_d, ii, nn, m);
                    }
                }
                let addr = self.base + 4096 * (i as u64);
                return Some(addr);
            }
            i = i + 1;
        }
        proof {
            assert(!can_alloc(self.descriptors@, n as int));
            assert forall|m: int|
                #[trigger] can_alloc(self.descriptors@, m) && m > n as int implies can_alloc(
                self.descriptors@,
                m - n as int,
            ) by {
                lemma_can_alloc_mono(self.descriptors@, m, m - n as int);
            }
        }
        None
    }

    /// Allocate and zero: as `alloc`, and the frames' contents (viewed as
    /// tables) read back all-zero.
    pub fn zalloc(&mut self, request_pages: usize) -> (r: Option<u64>)
        requires
            old(self).wf(),
            1 <= request_pages <= old(self).page_count(),
        ensures
            final(self).wf(),
            final(self).base == old(self).base,
            final(self).page_count() == old(self).page_count(),
            r.is_some() == can_alloc(old(self).descriptors@, request_pages as int),
            r.is_none() ==> final(self).descriptors@ == old(self).descriptors@
                && final(self).tables@ == old(self).tables@,
            r matches Some(addr) ==> Memory::alloc_post(
                old(self).descriptors@,
                final(self).descriptors@,
                old(self).base,
                request_pages as int,
                addr,
            ),
            r matches Some(addr) ==> {
                let i = (addr - old(self).base) / (4096 as int);
                &&& forall|fi: int|
                    0 <= fi < old(self).tables@.len() && !(i <= fi < i + request_pages)
                        ==> final(self).tables@[fi] == old(self).tables@[fi]
                &&& forall|fi: int|
                    i <= fi < i + request_pages ==> (#[trigger] final(self).tables@[fi]).all_zero()
            },
            forall|m: int|
                #[trigger] can_alloc(old(self).descriptors@, m) && m > request_pages ==> can_alloc(
                    final(self).descriptors@,
                    m - request_pages,
                ),
    {
        let r = self.alloc_pages(request_pages);
        if let Some(addr) = r {
            let i = ((addr - self.base) / 4096) as usize;
            proof {
                assert((4096 * (((addr - self.base) / (4096 as int)))) == addr - self.base);
            }
            let mut k: usize = i;
            while k < i + request_pages
                invariant
                    old(self).wf(),
                    i <= k <= i + request_pages,
                    i + request_pages <= self.tables.len(),
                    self.wf(),
                    self.base == old(self).base,
                    self.descriptors@ == stamp_run(
                        old(self).descriptors@,
                        i as int,
                        request_pages as int,
                    ),
                    self.descriptors@.len() == old(self).descriptors@.len(),
                    forall|fi: int|
                        0 <= fi < self.tables@.len() && !(i <= fi < k) ==> self.tables@[fi]
                            == old(self).tables@[fi],
                    forall|fi: int| i <= fi < k ==> (#[trigger] self.tables@[fi]).all_zero(),
                decreases i + request_pages - k,
            {
                self.tables[k] = Sv39PageTable::new();
                proof {
                    assert forall|fj: int, ej: int|
                        0 <= fj < self.page_count() && 0 <= ej < 512 implies self.branch_ok(
                        #[trigger] self.entry_at(fj, ej),
                    ) by {
                        if i <= fj <= k as int {
                            assert(self.tables@[fj].all_zero());
                            assert(self.tables@[fj].entries[ej].entry == 0);
                            assert(self.entry_at(fj, ej) == 0);
                            lemma_zero_entry();
                        } else {
                            assert(self.tables@[fj] == old(self).tables@[fj]);
                            assert(self.entry_at(fj, ej) == old(self).entry_at(fj, ej));
                            assert(old(self).branch_ok(old(self).entry_at(fj, ej)));
                            assert(self.base == old(self).base);
                            assert(self.page_count() == old(self).page_count());
                        }
                    }
                }
                k = k + 1;
            }
        }
        r
    }

    /// Free the run that starts at `ptr`: clear descriptors forward up to
    /// and including the one marked Last. Freeing a page that is not the
    /// start of a taken run is an invariant violation and is excluded.
    pub fn dealloc(&mut self, ptr: u64)
        requires
            old(self).wf(),
            ptr >= old(self).base,
            (ptr - old(self).base) % 4096 == 0,
            old(self).spec_page_index(ptr) < old(self).page_count(),
            exists|e: int| is_alloc_run(old(self).descriptors@, old(self).spec_page_index(ptr), e),
        ensures
            final(self).wf(),
            final(self).base == old(self).base,
            final(self).tables@ == old(self).tables@,
            final(self).descriptors@ == clear_run(
                old(self).descriptors@,
                old(self).spec_page_index(ptr),
                spec_run_end(old(self).descriptors@, old(self).spec_page_index(ptr)),
            ),
    {
        let idx = ((ptr - self.base) / 4096) as usize;
        let ghost old_d = old(self).descriptors@;
        let ghost e = spec_run_end(old_d, idx as int);
        proof {
            let e0 = choose|e0: int| is_alloc_run(old_d, idx as int, e0);
            lemma_run_end_unique(old_d, idx as int, e0, e);
            assert(is_alloc_run(old_d, idx as int, e));
            assert(desc_taken(1u8) && desc_taken(3u8) && !desc_last(1u8) && desc_last(3u8))
                by (bit_vector);
        }
        let mut p = idx;
        while self.descriptors[p].is_taken() && !self.descriptors[p].is_last()
            invariant
                old(self).wf(),
                self.wf(),
                self.base == old(self).base,
                self.tables@ == old(self).tables@,
                self.descriptors@.len() == old_d.len(),
                old_d == old(self).descriptors@,
                e == spec_run_end(old_d, idx as int),
                is_alloc_run(old_d, idx as int, e),
                idx <= p <= e,
                p < old_d.len(),
                self.descriptors@ == clear_run(old_d, idx as int, p - 1),
                desc_taken(1u8) && desc_taken(3u8) && !desc_last(1u8) && desc_last(3u8),
            decreases e - p,
        {
            let mut pd = self.descriptors[p];
            pd.clear();
            self.descriptors[p] = pd;
            proof {
                assert(self.descriptors@ =~= clear_run(old_d, idx as int, p as int));
                assert(p < e) by {
                    assert(old_d[e].flags == 3);
                }
                lemma_branches_ok_unchanged(*old(self), *self);
            }
            p = p + 1;
        }
        proof {
            assert(p == e) by {
                if p < e {
                    assert(old_d[p as int].flags == 1);
                }
            }
        }
        let mut pd = self.descriptors[p];
        pd.clear();
        self.descriptors[p] = pd;
        proof {
            assert(self.descriptors@ =~= clear_run(old_d, idx as int, e));
            lemma_branches_ok_unchanged(*old(self), *self);
        }
    }
}

/// Nine-bit pieces of a virtual address: `VPN[2..0]`, above the 12-bit
/// page offset.
pub open spec fn vpn_of(va: u64, lvl: int) -> u64 {
    if lvl == 2 {
        (va >> 30) & 0x1ff
    } else if lvl == 1 {
        (va >> 21) & 0x1ff
    } else {
        (va >> 12) & 0x1ff
    }
}

/// The value of a branch entry: the child table's address shifted right by
/// two, with only Valid set.
pub open spec fn branch_entry_value(pa: u64) -> u64 {
    (pa >> 2) | 1
}

/// The value of a leaf entry: the target's PPN pieces packed at bits 28, 19
/// and 10, the caller's flags, and Valid | Access | Dirty.
pub open spec fn leaf_entry_value(pa: u64, flags: u64) -> u64 {
    (((pa >> 30) & 0x1ff) << 28) | (((pa >> 21) & 0x1ff) << 19) | (((pa >> 12) & 0x1ff) << 10)
        | flags | 1 | 128 | 64
}

/// The page-offset mask of a leaf found at `lvl`: 12 bits plus 9 per level.
pub open spec fn level_offset_mask(lvl: int) -> u64 {
    if lvl == 2 {
        0x3fff_ffffu64
    } else if lvl == 1 {
        0x1f_ffffu64
    } else {
        0xfffu64
    }
}

/// What a translation reconstructs from a leaf entry found at `lvl`:
/// the entry's PPNs over the level's offset mask, the offset from the
/// virtual address.
pub open spec fn translate_combine(e: u64, va: u64, lvl: int) -> u64 {
    ((e << 2) & (!level_offset_mask(lvl))) | (va & level_offset_mask(lvl))
}

/// The virtual-page-number pieces stay below the 512 entries of a table.
pub proof fn lemma_vpn_bounds(va: u64)
    ensures
        vpn_of(va, 2) < 512,
        vpn_of(va, 1) < 512,
        vpn_of(va, 0) < 512,
{
    assert((va >> 30) & 0x1ff < 512 && (va >> 21) & 0x1ff < 512 && (va >> 12) & 0x1ff < 512)
        by (bit_vector);
}

/// A branch entry built from a page-aligned Sv39 address is valid, is no
/// leaf, and points back at exactly that address.
pub proof fn lemma_branch_entry(pa: u64)
    requires
        pa % 4096 == 0,
        pa < 0x80_0000_0000,
    ensures
        entry_valid(branch_entry_value(pa)),
        !entry_readable(branch_entry_value(pa)),
        !entry_writable(branch_entry_value(pa)),
        !entry_leaf(branch_entry_value(pa)),
        entry_physical_address(branch_entry_value(pa)) == pa,
{
    assert(pa % 4096 == 0 && pa < 0x80_0000_0000 ==> ((pa >> 2) | 1) & 1 == 1 && !(((pa >> 2) | 1)
        & 2 == 2) && !(((pa >> 2) | 1) & 4 == 4) && ((((pa >> 2) | 1) & (!0x3ffu64)) << 2) == pa)
        by (bit_vector);
}

/// A leaf entry keeps Valid, its read/write bits mirror the caller's flags,
/// and shifting it back recovers the mapped address over each level's
/// offset mask.
pub proof fn lemma_leaf_entry(pa: u64, flags: u64)
    requires
        flags < 1024,
        pa < 0x80_0000_0000,
    ensures
        entry_valid(leaf_entry_value(pa, flags)),
        entry_readable(leaf_entry_value(pa, flags)) == (flags & 2 == 2),
        entry_writable(leaf_entry_value(pa, flags)) == (flags & 4 == 4),
        (leaf_entry_value(pa, flags) << 2) & (!0xfffu64) == pa & (!0xfffu64),
        (leaf_entry_value(pa, flags) << 2) & (!0x1f_ffffu64) == pa & (!0x1f_ffffu64),
        (leaf_entry_value(pa, flags) << 2) & (!0x3fff_ffffu64) == pa & (!0x3fff_ffffu64),
{
    let e = (((pa >> 30) & 0x1ff) << 28) | (((pa >> 21) & 0x1ff) << 19) | (((pa >> 12) & 0x1ff)
        << 10) | flags | 1 | 128 | 64;
    assert(flags < 1024 && pa < 0x80_0000_0000 ==> e & 1 == 1 && (e & 2 == 2) == (flags & 2 == 2)
        && (e & 4 == 4) == (flags & 4 == 4) && (e << 2) & (!0xfffu64) == pa & (!0xfffu64) && (e
        << 2) & (!0x1f_ffffu64) == pa & (!0x1f_ffffu64) && (e << 2) & (!0x3fff_ffffu64) == pa & (
    !0x3fff_ffffu64)) by (bit_vector)
        requires
            e == (((pa >> 30) & 0x1ff) << 28) | (((pa >> 21) & 0x1ff) << 19) | (((pa >> 12)
                & 0x1ff) << 10) | flags | 1 | 128 | 64,
    ;
}

impl Memory {
    /// The frame a valid branch entry points at.
    pub open spec fn child_of(&self, e: u64) -> int {
        self.spec_page_index(entry_physical_address(e))
    }

    /// The Sv39 walk, one level at a time: fault on an invalid entry or on
    /// the reserved write-without-read pattern, stop on a leaf, follow a
    /// branch. A branch in a level-0 table leads nowhere the hardware could
    /// go either; the walk gives nothing for it.
    pub open spec fn spec_translate(&self, root_fi: int, va: u64) -> Option<u64> {
        let e2 = self.entry_at(root_fi, vpn_of(va, 2) as int);
        if !entry_valid(e2) || (!entry_readable(e2) && entry_writable(e2)) {
            Option::None
        } else if entry_leaf(e2) {
            Option::Some(translate_combine(e2, va, 2))
        } else {
            let e1 = self.entry_at(self.child_of(e2), vpn_of(va, 1) as int);
            if !entry_valid(e1) || (!entry_readable(e1) && entry_writable(e1)) {
                Option::None
            } else if entry_leaf(e1) {
                Option::Some(translate_combine(e1, va, 1))
            } else {
                let e0 = self.entry_at(self.child_of(e1), vpn_of(va, 0) as int);
                if !entry_valid(e0) || (!entry_readable(e0) && entry_writable(e0)) {
                    Option::None
                } else if entry_leaf(e0) {
                    Option::Some(translate_combine(e0, va, 0))
                } else {
                    Option::None
                }
            }
        }
    }

    /// The existing entries along the path `map` walks for `va` are sound:
    /// no leaf stands where a branch is needed, branch children are intact
    /// single-page runs, and the concrete path never folds back on itself.
    pub open spec fn map_path_ok(&self, root_fi: int, va: u64, level: int) -> bool {
        level >= 2 || {
            let e2 = self.entry_at(root_fi, vpn_of(va, 2) as int);
            !entry_valid(e2) || {
                &&& !entry_leaf(e2)
                &&& {
                    let f1 = self.child_of(e2);
                    &&& f1 != root_fi
                    &&& self.descriptors@[f1].flags == 3
                    &&& (level >= 1 || {
                        let e1 = self.entry_at(f1, vpn_of(va, 1) as int);
                        !entry_valid(e1) || {
                            &&& !entry_leaf(e1)
                            &&& {
                                let f0 = self.child_of(e1);
                                &&& f0 != root_fi
                                &&& f0 != f1
                                &&& self.descriptors@[f0].flags == 3
                            }
                        }
                    })
                }
            }
        }
    }

    /// How many intermediate tables `map` will have to allocate.
    pub open spec fn spec_missing_branches(&self, root_fi: int, va: u64, level: int) -> int {
        if level >= 2 {
            0
        } else {
            let e2 = self.entry_at(root_fi, vpn_of(va, 2) as int);
            if !entry_valid(e2) {
                2 - level
            } else if level >= 1 {
                0
            } else {
                let e1 = self.entry_at(self.child_of(e2), vpn_of(va, 1) as int);
                if !entry_valid(e1) {
                    1
                } else {
                    0
                }
            }
        }
    }

    /// Follow the entry `(fi, ei)` one level down, allocating and hooking in
    /// a zeroed table when the entry is not yet valid (a branch carries only
    /// Valid). Returns the child's frame.
    fn descend(&mut self, fi: usize, ei: usize) -> (child: usize)
        requires
            old(self).wf(),
            (fi as int) < old(self).page_count(),
            ei < 512,
            old(self).descriptors@[fi as int].flags == 3,
            entry_valid(old(self).entry_at(fi as int, ei as int)) ==> {
                let e = old(self).entry_at(fi as int, ei as int);
                &&& !entry_leaf(e)
                &&& old(self).child_of(e) != fi
                &&& old(self).descriptors@[old(self).child_of(e)].flags == 3
            },
            !entry_valid(old(self).entry_at(fi as int, ei as int)) ==> can_alloc(
                old(self).descriptors@,
                1,
            ),
        ensures
            final(self).wf(),
            final(self).base == old(self).base,
            final(self).page_count() == old(self).page_count(),
            (child as int) < final(self).page_count(),
            child != fi,
            final(self).descriptors@[child as int].flags == 3,
            ({
                let e = final(self).entry_at(fi as int, ei as int);
                &&& entry_valid(e)
                &&& !entry_leaf(e)
                &&& final(self).child_of(e) == child
            }),
            entry_valid(old(self).entry_at(fi as int, ei as int)) ==> *final(self) == *old(self)
                && child as int == old(self).child_of(old(self).entry_at(fi as int, ei as int)),
            !entry_valid(old(self).entry_at(fi as int, ei as int)) ==> {
                &&& !desc_taken(old(self).descriptors@[child as int].flags)
                &&& final(self).descriptors@ == stamp_run(old(self).descriptors@, child as int, 1)
                &&& final(self).tables@[child as int].all_zero()
                &&& forall|f: int|
                    0 <= f < old(self).page_count() && f != fi && f != child
                        ==> final(self).tables@[f] == old(self).tables@[f]
                &&& forall|e2: int|
                    0 <= e2 < 512 && e2 != ei ==> final(self).entry_at(fi as int, e2) == old(
                        self,
                    ).entry_at(fi as int, e2)
            },
            forall|j: int|
                0 <= j < old(self).page_count() && desc_taken(
                    #[trigger] old(self).descriptors@[j].flags,
                ) ==> final(self).descriptors@[j] == old(self).descriptors@[j],
            forall|m: int|
                #[trigger] can_alloc(old(self).descriptors@, m) && m > 1 ==> can_alloc(
                    final(self).descriptors@,
                    m - 1,
                ),
    {
        let pte = self.tables[fi].entries[ei];
        if pte.is_valid() {
            let pa = pte.get_physical_address();
            proof {
                assert(self.branch_ok(self.entry_at(fi as int, ei as int)));
                lemma_can_alloc_shrink(self.descriptors@);
            }
            let child = ((pa - self.base) / 4096) as usize;
            child
        } else {
            let r = self.zalloc(1);
            match r {
                Option::Some(addr) => {
                    let ghost old_d = old(self).descriptors@;
                    let child = ((addr - self.base) / 4096) as usize;
                    proof {
                        assert((addr - self.base) % 4096 == 0 && addr % 4096 == 0) by {
                            assert(addr == self.base + 4096 * ((addr - self.base) / (4096 as int)));
                            assert(self.base % 4096 == 0);
                        }
                        lemma_branch_entry(addr);
                        assert(desc_taken(3u8)) by (bit_vector);
                        assert(child != fi) by {
                            assert(!desc_taken(old_d[(addr - self.base) / (4096 as int)].flags));
                            assert(desc_taken(old_d[fi as int].flags));
                        }
                    }
                    self.tables[fi].entries[ei] = Sv39PageTableEntry {
                        entry: (addr >> 2) | 1,
                    };
                    proof {
                        let s = *self;
                        let ci = child as int;
                        assert(addr < 0x80_0000_0000) by {
                            assert(addr == s.base + 4096 * ci);
                            assert(ci < s.page_count());
                            assert(4096 * ci + 4096 <= 4096 * s.page_count());
                        }
                        lemma_branch_entry(addr);
                        assert forall|fj: int, ej: int|
                            0 <= fj < s.page_count() && 0 <= ej < 512 implies s.branch_ok(
                            #[trigger] s.entry_at(fj, ej),
                        ) by {
                            if fj == fi as int && ej == ei as int {
                                assert(s.entry_at(fj, ej) == (addr >> 2) | 1);
                                assert(entry_physical_address(s.entry_at(fj, ej)) == addr);
                                assert(s.spec_page_index(addr) == ci);
                            } else if fj == ci {
                                assert(s.tables@[fj].all_zero());
                                assert(s.tables@[fj].entries[ej].entry == 0);
                                assert(s.entry_at(fj, ej) == 0);
                                lemma_zero_entry();
                            } else if fj == fi as int {
                                assert(s.tables@[fj].entries@ == old(self).tables@[fj].entries@
                                    .update(ei as int, (Sv39PageTableEntry {
                                    entry: (addr >> 2) | 1,
                                })));
                                assert(s.entry_at(fj, ej) == old(self).entry_at(fj, ej));
                                assert(old(self).branch_ok(old(self).entry_at(fj, ej)));
                            } else {
                                assert(s.tables@[fj] == old(self).tables@[fj]);
                                assert(s.entry_at(fj, ej) == old(self).entry_at(fj, ej));
                                assert(old(self).branch_ok(old(self).entry_at(fj, ej)));
                            }
                        }
                        assert(s.descriptors@[ci] == stamp_run(old_d, ci, 1)[ci]);
                        assert(s.descriptors@[ci].flags == 3);
                    }
                    child
                },
                Option::None => {
                    proof {
                        assert(false);
                    }
                    0
                },
            }
        }
    }
}

/// After a level-0 map wrote its path, any branch path of the root is
/// either the freshly written one or a path the old table already had,
/// with the same frames.
proof fn lemma_map_gc_case(
    s0: Memory,
    s: Memory,
    rg: int,
    v2: int,
    v1: int,
    ff1: int,
    ff0: int,
    e2old: u64,
    e: int,
    f: int,
)
    requires
        0 <= e < 512,
        0 <= f < 512,
        0 <= v2 < 512,
        0 <= v1 < 512,
        0 <= rg < s0.page_count(),
        0 <= ff1 < s0.page_count(),
        0 <= ff0 < s0.page_count(),
        ff1 != rg,
        ff0 != rg,
        ff0 != ff1,
        s.base == s0.base,
        s.page_count() == s0.page_count(),
        s0.user_table_wf(rg),
        s0.user_table_distinct(rg),
        e2old == s0.entry_at(rg, v2),
        forall|x: int|
            0 <= x < 512 && x != v2 ==> #[trigger] s.entry_at(rg, x) == s0.entry_at(rg, x),
        s.is_branch(rg, v2) && s.child_idx(rg, v2) == ff1,
        forall|y: int|
            0 <= y < 512 && y != v1 ==> #[trigger] s.entry_at(ff1, y) == (if entry_valid(e2old) {
                s0.entry_at(ff1, y)
            } else {
                0u64
            }),
        s.is_branch(ff1, v1) && s.child_idx(ff1, v1) == ff0,
        entry_valid(e2old) ==> (s0.is_branch(rg, v2) && s0.child_idx(rg, v2) == ff1),
        !entry_valid(e2old) ==> !desc_taken(s0.descriptors@[ff1].flags),
        forall|c: int|
            0 <= c < s0.page_count() && c != rg && c != ff1 && c != ff0 ==> #[trigger] s.tables@[c]
                == s0.tables@[c],
        forall|x: int|
            0 <= x < 512 && s0.is_branch(rg, x) ==> #[trigger] s0.child_idx(rg, x) != ff0,
        s.is_branch(rg, e),
        s.is_branch(s.child_idx(rg, e), f),
    ensures
        (e == v2 && f == v1 && s.child_idx(s.child_idx(rg, e), f) == ff0) || (s0.is_branch(rg, e)
            && s0.is_branch(s0.child_idx(rg, e), f) && s.child_idx(rg, e) == s0.child_idx(rg, e)
            && s.child_idx(s.child_idx(rg, e), f) == s0.child_idx(s0.child_idx(rg, e), f)),
{
    lemma_zero_entry();
    lemma_taken_three();
    if e == v2 {
        if f == v1 {
        } else {
            assert(entry_valid(e2old)) by {
                if !entry_valid(e2old) {
                    assert(s.entry_at(ff1, f) == 0);
                }
            }
            assert(s0.l2_entry_ok(rg, e2old));
            assert(s.entry_at(ff1, f) == s0.entry_at(ff1, f));
        }
    } else {
        assert(s.entry_at(rg, e) == s0.entry_at(rg, e));
        assert(s0.is_branch(rg, e));
        assert(s0.l2_entry_ok(rg, s0.entry_at(rg, e)));
        let c = s0.child_idx(rg, e);
        assert(s0.descriptors@[c].flags == 3);
        assert(c != rg);
        assert(c != ff0);
        assert(c != ff1) by {
            if entry_valid(e2old) {
                assert(s0.is_branch(rg, v2));
                assert(s0.child_idx(rg, e) != s0.child_idx(rg, v2));
            } else {
                assert(desc_taken(s0.descriptors@[c].flags));
            }
        }
        assert(s.tables@[c] == s0.tables@[c]);
        assert(s.entry_at(c, f) == s0.entry_at(c, f));
    }
}

/// After a level-0 map wrote the path of `va`, every virtual address whose
/// page differs from `va`'s still translates as before.
proof fn lemma_map_preserves_other_paths(
    s0: Memory,
    s: Memory,
    rg: int,
    va: u64,
    ff1: int,
    ff0: int,
    e2old: u64,
    f0_old: bool,
    va2: u64,
)
    requires
        0 <= rg < s0.page_count(),
        0 <= ff1 < s0.page_count(),
        0 <= ff0 < s0.page_count(),
        ff1 != rg,
        ff0 != rg,
        ff0 != ff1,
        s.base == s0.base,
        s.page_count() == s0.page_count(),
        s0.user_table_wf(rg),
        s0.user_table_distinct(rg),
        e2old == s0.entry_at(rg, vpn_of(va, 2) as int),
        forall|x: int|
            0 <= x < 512 && x != vpn_of(va, 2) as int ==> #[trigger] s.entry_at(rg, x)
                == s0.entry_at(rg, x),
        s.is_branch(rg, vpn_of(va, 2) as int) && s.child_idx(rg, vpn_of(va, 2) as int) == ff1,
        forall|y: int|
            0 <= y < 512 && y != vpn_of(va, 1) as int ==> #[trigger] s.entry_at(ff1, y) == (
            if entry_valid(e2old) {
                s0.entry_at(ff1, y)
            } else {
                0u64
            }),
        s.is_branch(ff1, vpn_of(va, 1) as int) && s.child_idx(ff1, vpn_of(va, 1) as int) == ff0,
        forall|y: int|
            0 <= y < 512 && y != vpn_of(va, 0) as int ==> #[trigger] s.entry_at(ff0, y) == (
            if f0_old {
                s0.entry_at(ff0, y)
            } else {
                0u64
            }),
        entry_valid(e2old) ==> (s0.is_branch(rg, vpn_of(va, 2) as int) && s0.child_idx(
            rg,
            vpn_of(va, 2) as int,
        ) == ff1),
        !entry_valid(e2old) ==> !desc_taken(s0.descriptors@[ff1].flags),
        f0_old ==> (entry_valid(e2old) && s0.is_branch(ff1, vpn_of(va, 1) as int)
            && s0.child_idx(ff1, vpn_of(va, 1) as int) == ff0),
        !f0_old ==> !desc_taken(s0.descriptors@[ff0].flags),
        f0_old ==> entry_valid(s0.entry_at(ff1, vpn_of(va, 1) as int)),
        !f0_old ==> !entry_valid(s0.entry_at(ff1, vpn_of(va, 1) as int)) || !entry_valid(e2old),
        forall|c: int|
            0 <= c < s0.page_count() && c != rg && c != ff1 && c != ff0 ==> #[trigger] s.tables@[c]
                == s0.tables@[c],
        forall|x: int|
            0 <= x < 512 && s0.is_branch(rg, x) ==> #[trigger] s0.child_idx(rg, x) != ff0,
        vpn_of(va2, 2) != vpn_of(va, 2) || vpn_of(va2, 1) != vpn_of(va, 1) || vpn_of(va2, 0)
            != vpn_of(va, 0),
    ensures
        s.spec_translate(rg, va2) == s0.spec_translate(rg, va2),
{
    lemma_vpn_bounds(va);
    lemma_vpn_bounds(va2);
    lemma_zero_entry();
    lemma_taken_three();
    let v2 = vpn_of(va, 2) as int;
    let v1 = vpn_of(va, 1) as int;
    let v0 = vpn_of(va, 0) as int;
    let t2 = vpn_of(va2, 2) as int;
    let t1 = vpn_of(va2, 1) as int;
    let t0 = vpn_of(va2, 0) as int;
    if t2 != v2 {
        assert(s.entry_at(rg, t2) == s0.entry_at(rg, t2));
        let e2x = s0.entry_at(rg, t2);
        if entry_valid(e2x) {
            assert(s0.l2_entry_ok(rg, e2x));
            let c = s0.child_of(e2x);
            assert(s0.descriptors@[c].flags == 3);
            assert(c != rg);
            assert(c != ff1) by {
                if entry_valid(e2old) {
                    assert(s0.is_branch(rg, t2) && s0.is_branch(rg, v2));
                    assert(s0.child_idx(rg, t2) != s0.child_idx(rg, v2));
                } else {
                    assert(desc_taken(s0.descriptors@[c].flags));
                }
            }
            assert(c != ff0);
            assert(s.tables@[c] == s0.tables@[c]);
            assert(s.entry_at(c, t1) == s0.entry_at(c, t1));
            let e1x = s0.entry_at(c, t1);
            if entry_valid(e1x) {
                assert(s0.l1_entry_ok(rg, c, e1x));
                let g = s0.child_of(e1x);
                assert(s0.descriptors@[g].flags == 3);
                assert(g != rg && g != c);
                assert(g != ff1) by {
                    if entry_valid(e2old) {
                        assert(s0.is_branch(rg, v2));
                    } else {
                        assert(desc_taken(s0.descriptors@[g].flags));
                    }
                }
                assert(g != ff0) by {
                    if f0_old {
                        assert(s0.is_branch(rg, t2) && s0.is_branch(rg, v2));
                        assert(s0.is_branch(c, t1) && s0.is_branch(ff1, v1));
                        assert(s0.child_idx(s0.child_idx(rg, t2), t1) != s0.child_idx(
                            s0.child_idx(rg, v2),
                            v1,
                        ));
                    } else {
                        assert(desc_taken(s0.descriptors@[g].flags));
                    }
                }
                assert(s.tables@[g] == s0.tables@[g]);
                assert(s.entry_at(g, t0) == s0.entry_at(g, t0));
            }
        }
    } else if t1 != v1 {
        if !entry_valid(e2old) {
            assert(s.entry_at(ff1, t1) == 0);
        } else {
            assert(s.entry_at(ff1, t1) == s0.entry_at(ff1, t1));
            let e1x = s0.entry_at(ff1, t1);
            if entry_valid(e1x) {
                assert(s0.l2_entry_ok(rg, e2old));
                assert(s0.l1_entry_ok(rg, ff1, e1x));
                let g = s0.child_of(e1x);
                assert(s0.descriptors@[g].flags == 3);
                assert(g != rg && g != ff1);
                assert(g != ff0) by {
                    if f0_old {
                        assert(s0.is_branch(rg, v2));
                        assert(s0.is_branch(ff1, t1) && s0.is_branch(ff1, v1));
                        assert(s0.child_idx(s0.child_idx(rg, v2), t1) != s0.child_idx(
                            s0.child_idx(rg, v2),
                            v1,
                        ));
                    } else {
                        assert(desc_taken(s0.descriptors@[g].flags));
                    }
                }
                assert(s.tables@[g] == s0.tables@[g]);
                assert(s.entry_at(g, t0) == s0.entry_at(g, t0));
            }
        }
    } else {
        assert(t0 != v0);
        if !entry_valid(e2old) {
            assert(s.entry_at(ff0, t0) == 0);
            assert(!f0_old);
        } else if !f0_old {
            assert(s.entry_at(ff0, t0) == 0);
            assert(!entry_valid(s0.entry_at(ff1, v1)));
        } else {
            assert(s.entry_at(ff0, t0) == s0.entry_at(ff0, t0));
            assert(s0.l2_entry_ok(rg, e2old));
            assert(s0.l1_entry_ok(rg, ff1, s0.entry_at(ff1, v1)));
        }
    }
}

impl Memory {
    /// What a level-1 table entry may hold in a user table built by
    /// level-0 maps: a branch to an intact, distinct level-0 table frame.
    pub open spec fn l1_entry_ok(&self, root: int, c: int, w: u64) -> bool {
        entry_valid(w) ==> {
            let g = self.child_of(w);
            &&& !entry_leaf(w)
            &&& 0 <= g < self.page_count()
            &&& self.descriptors@[g].flags == 3
            &&& g != root
            &&& g != c
            &&& forall|e2b: int|
                0 <= e2b < 512 ==> (entry_valid(#[trigger] self.entry_at(root, e2b)) ==> g
                    != self.child_of(self.entry_at(root, e2b)))
        }
    }

    /// What a root entry may hold in a user table: a branch to an intact
    /// level-1 table frame whose entries are in turn sound.
    pub open spec fn l2_entry_ok(&self, root: int, v: u64) -> bool {
        entry_valid(v) ==> {
            let c = self.child_of(v);
            &&& !entry_leaf(v)
            &&& 0 <= c < self.page_count()
            &&& self.descriptors@[c].flags == 3
            &&& c != root
            &&& forall|e1: int|
                0 <= e1 < 512 ==> self.l1_entry_ok(root, c, #[trigger] self.entry_at(c, e1))
        }
    }

    /// The structure `map` at level 0 builds and keeps: every valid entry
    /// of the root is a branch to a separate level-1 frame, every valid
    /// level-1 entry a branch to a level-0 frame distinct from the frames
    /// above it. A zeroed root satisfies it vacuously.
    pub open spec fn user_table_wf(&self, root: int) -> bool {
        forall|e2: int|
            0 <= e2 < 512 ==> self.l2_entry_ok(root, #[trigger] self.entry_at(root, e2))
    }

    /// A sound user table admits a level-0 map of any virtual address.
    pub proof fn lemma_user_table_path_ok(self, root: int, va: u64)
        requires
            self.user_table_wf(root),
        ensures
            self.map_path_ok(root, va, 0),
            self.spec_missing_branches(root, va, 0) <= 2,
    {
        lemma_vpn_bounds(va);
        let e2 = self.entry_at(root, vpn_of(va, 2) as int);
        assert(self.l2_entry_ok(root, e2));
        if entry_valid(e2) {
            let c = self.child_of(e2);
            let e1 = self.entry_at(c, vpn_of(va, 1) as int);
            assert(self.l1_entry_ok(root, c, e1));
        }
    }

    /// The walk for `va` never has to descend out of a level-0 table: its
    /// final entry, when reached through branches, is no branch itself.
    pub open spec fn translate_walk_ok(&self, root_fi: int, va: u64) -> bool {
        let e2 = self.entry_at(root_fi, vpn_of(va, 2) as int);
        (entry_valid(e2) && !entry_leaf(e2)) ==> {
            let e1 = self.entry_at(self.child_of(e2), vpn_of(va, 1) as int);
            (entry_valid(e1) && !entry_leaf(e1)) ==> {
                let e0 = self.entry_at(self.child_of(e1), vpn_of(va, 0) as int);
                !(entry_valid(e0) && !entry_leaf(e0))
            }
        }
    }

    /// Map a virtual address to a physical address, walking from the root
    /// down to `level` and allocating a zeroed table for every missing
    /// intermediate. The leaf takes the caller's flags plus
    /// Valid | Access | Dirty.
    #[verifier::rlimit(100)]
    #[verifier::spinoff_prover]
    pub fn map(
        &mut self,
        root: u64,
        virtual_address: u64,
        physical_address: u64,
        flags: u64,
        level: usize,
    )
        requires
            old(self).wf(),
            root >= old(self).base,
            (root - old(self).base) % 4096 == 0,
            old(self).spec_page_index(root) < old(self).page_count(),
            old(self).descriptors@[old(self).spec_page_index(root)].flags == 3,
            flags & 0xe != 0,
            flags & 6 != 0,
            flags < 1024,
            level <= 2,
            virtual_address < 0x80_0000_0000,
            physical_address < 0x80_0000_0000,
            old(self).map_path_ok(old(self).spec_page_index(root), virtual_address, level as int),
            old(self).spec_missing_branches(
                old(self).spec_page_index(root),
                virtual_address,
                level as int,
            ) == 0 || can_alloc(
                old(self).descriptors@,
                old(self).spec_missing_branches(
                    old(self).spec_page_index(root),
                    virtual_address,
                    level as int,
                ),
            ),
        ensures
            final(self).wf(),
            final(self).base == old(self).base,
            final(self).page_count() == old(self).page_count(),
            forall|j: int|
                0 <= j < old(self).page_count() && desc_taken(
                    #[trigger] old(self).descriptors@[j].flags,
                ) ==> final(self).descriptors@[j] == old(self).descriptors@[j],
            forall|m: int|
                #[trigger] can_alloc(old(self).descriptors@, m) && m > old(
                    self,
                ).spec_missing_branches(
                    old(self).spec_page_index(root),
                    virtual_address,
                    level as int,
                ) ==> can_alloc(
                    final(self).descriptors@,
                    m - old(self).spec_missing_branches(
                        old(self).spec_page_index(root),
                        virtual_address,
                        level as int,
                    ),
                ),
            flags & 2 == 2 ==> final(self).spec_translate(
                old(self).spec_page_index(root),
                virtual_address,
            ) == Option::Some(
                (physical_address & (!level_offset_mask(level as int))) | (virtual_address
                    & level_offset_mask(level as int)),
            ),
            (level == 0 && old(self).user_table_wf(old(self).spec_page_index(root)))
                ==> final(self).user_table_wf(old(self).spec_page_index(root)),
            (level == 0 && old(self).user_table_wf(old(self).spec_page_index(root))
                && old(self).user_table_distinct(old(self).spec_page_index(root)))
                ==> final(self).user_table_distinct(old(self).spec_page_index(root)),
            (level == 0 && old(self).user_table_wf(old(self).spec_page_index(root))
                && old(self).user_table_distinct(old(self).spec_page_index(root)))
                ==> (forall|f: int|
                (#[trigger] final(self).tree_member(old(self).spec_page_index(root), f)
                    && desc_taken(old(self).descriptors@[f].flags))
                    ==> old(self).tree_member(old(self).spec_page_index(root), f)),
            (level == 0 && old(self).user_table_wf(old(self).spec_page_index(root))
                && old(self).user_table_distinct(old(self).spec_page_index(root)))
                ==> (forall|va2: u64|
                (vpn_of(va2, 2) != vpn_of(virtual_address, 2) || vpn_of(va2, 1) != vpn_of(
                    virtual_address,
                    1,
                ) || vpn_of(va2, 0) != vpn_of(virtual_address, 0))
                    ==> #[trigger] final(self).spec_translate(old(self).spec_page_index(root), va2)
                    == old(self).spec_translate(old(self).spec_page_index(root), va2)),
            level == 2 ==> final(self).entry_at(
                old(self).spec_page_index(root),
                vpn_of(virtual_address, 2) as int,
            ) == leaf_entry_value(physical_address, flags),
            level == 1 ==> ({
                let rg = old(self).spec_page_index(root);
                &&& final(self).is_branch(rg, vpn_of(virtual_address, 2) as int)
                &&& final(self).entry_at(
                    final(self).child_idx(rg, vpn_of(virtual_address, 2) as int),
                    vpn_of(virtual_address, 1) as int,
                ) == leaf_entry_value(physical_address, flags)
            }),
            level == 0 ==> ({
                let rg = old(self).spec_page_index(root);
                let c = final(self).child_idx(rg, vpn_of(virtual_address, 2) as int);
                &&& final(self).is_branch(rg, vpn_of(virtual_address, 2) as int)
                &&& final(self).is_branch(c, vpn_of(virtual_address, 1) as int)
                &&& final(self).entry_at(
                    final(self).child_idx(c, vpn_of(virtual_address, 1) as int),
                    vpn_of(virtual_address, 0) as int,
                ) == leaf_entry_value(physical_address, flags)
            }),
    {
        let ghost root_gi = old(self).spec_page_index(root);
        let ghost miss = old(self).spec_missing_branches(root_gi, virtual_address, level as int);
        let ghost s0 = *old(self);
        let root_fi = ((root - self.base) / 4096) as usize;
        proof {
            assert(root_fi as int == root_gi);
            lemma_vpn_bounds(virtual_address);
            assert(desc_taken(3u8)) by (bit_vector);
        }
        let v2 = ((virtual_address >> 30) & 0x1ff) as usize;
        let v1 = ((virtual_address >> 21) & 0x1ff) as usize;
        let v0 = ((virtual_address >> 12) & 0x1ff) as usize;
        let ghost e2old = s0.entry_at(root_gi, v2 as int);
        let mut fi = root_fi;
        let mut ei = v0;
        let ghost mut s_a = s0;
        let ghost mut s_b = s0;
        let mut f1 = root_fi;
        let mut f0 = root_fi;
        if level == 2 {
            ei = v2;
        } else {
            proof {
                if !entry_valid(e2old) && miss > 1 {
                    lemma_can_alloc_mono(s0.descriptors@, miss, 1);
                }
            }
            f1 = self.descend(root_fi, v2);
            proof {
                s_a = *self;
            }
            if level == 1 {
                fi = f1;
                ei = v1;
            } else {
                proof {
                    let e1a = s_a.entry_at(f1 as int, v1 as int);
                    if entry_valid(e2old) {
                        assert(s_a == s0);
                        assert(f1 as int == s0.child_of(e2old));
                        assert(e1a == s0.entry_at(s0.child_of(e2old), vpn_of(virtual_address, 1) as int));
                        if entry_valid(e1a) {
                            assert(miss == 0);
                        } else {
                            assert(miss == 1);
                            assert(can_alloc(s_a.descriptors@, 1));
                        }
                    } else {
                        assert(s_a.tables@[f1 as int].all_zero());
                        assert(s_a.tables@[f1 as int].entries[v1 as int].entry == 0);
                        assert(e1a == 0);
                        lemma_zero_entry();
                        assert(miss == 2);
                        assert(can_alloc(s_a.descriptors@, 1));
                    }
                }
                f0 = self.descend(f1, v1);
                proof {
                    s_b = *self;
                    assert(f0 != root_fi) by {
                        let e1a = s_a.entry_at(f1 as int, v1 as int);
                        if entry_valid(e1a) {
                            assert(s_b == s_a);
                            assert(f0 as int == s_a.child_of(e1a));
                            if entry_valid(e2old) {
                                assert(s_a == s0);
                            } else {
                                assert(s_a.tables@[f1 as int].all_zero());
                                assert(s_a.entry_at(f1 as int, v1 as int) == 0);
                                lemma_zero_entry();
                                assert(false);
                            }
                        } else {
                            assert(!desc_taken(s_a.descriptors@[f0 as int].flags));
                            assert(s_a.descriptors@[root_gi] == s0.descriptors@[root_gi]);
                        }
                    }
                }
                fi = f0;
                ei = v0;
            }
        }
        let p2 = (physical_address >> 30) & 0x1ff;
        let p1 = (physical_address >> 21) & 0x1ff;
        let p0 = (physical_address >> 12) & 0x1ff;
        let leaf = (p2 << 28) | (p1 << 19) | (p0 << 10) | flags | 1 | 128 | 64;
        let ghost s_pre = *self;
        proof {
            lemma_leaf_entry(physical_address, flags);
            assert(leaf == leaf_entry_value(physical_address, flags));
            assert(entry_leaf(leaf) && (entry_readable(leaf) == (flags & 2 == 2))
                && !(!entry_readable(leaf) && entry_writable(leaf)) || !(flags & 2 == 2)) by {
                assert(flags & 6 != 0 ==> (flags & 2 == 2) || (flags & 4 == 4)) by (bit_vector);
            }
        }
        self.tables[fi].entries[ei] = Sv39PageTableEntry { entry: leaf };
        proof {
            let s = *self;
            assert(entry_leaf(leaf)) by {
                assert(flags & 6 != 0 ==> (flags & 2 == 2) || (flags & 4 == 4)) by (bit_vector);
            }
            assert forall|fj: int, ej: int|
                0 <= fj < s.page_count() && 0 <= ej < 512 implies s.branch_ok(
                #[trigger] s.entry_at(fj, ej),
            ) by {
                if fj == fi as int && ej == ei as int {
                    assert(s.entry_at(fj, ej) == leaf);
                } else if fj == fi as int {
                    assert(s.entry_at(fj, ej) == s_pre.entry_at(fj, ej));
                    assert(s_pre.branch_ok(s_pre.entry_at(fj, ej)));
                } else {
                    assert(s.tables@[fj] == s_pre.tables@[fj]);
                    assert(s.entry_at(fj, ej) == s_pre.entry_at(fj, ej));
                    assert(s_pre.branch_ok(s_pre.entry_at(fj, ej)));
                }
            }
            // the walked slots read back as written
            if level == 2 {
                assert(s.entry_at(root_gi, v2 as int) == leaf);
            } else if level == 1 {
                assert(s_pre == s_a);
                assert(s.entry_at(f1 as int, v1 as int) == leaf);
                assert(s.entry_at(root_gi, v2 as int) == s_a.entry_at(root_gi, v2 as int)) by {
                    assert(f1 != root_fi);
                }
                assert(s.is_branch(root_gi, v2 as int) && s.child_idx(root_gi, v2 as int)
                    == f1 as int);
            } else {
                assert(s_pre == s_b);
                assert(s.entry_at(f0 as int, v0 as int) == leaf);
                assert(s.entry_at(root_gi, v2 as int) == s_b.entry_at(root_gi, v2 as int)) by {
                    assert(f0 != root_fi);
                }
                assert(s_b.entry_at(root_gi, v2 as int) == s_a.entry_at(
                    root_gi,
                    v2 as int,
                )) by {
                    let e1a = s_a.entry_at(f1 as int, v1 as int);
                    if entry_valid(e1a) {
                        assert(s_b == s_a);
                    } else {
                        assert(f1 != root_fi && f0 != root_fi);
                    }
                }
                assert(s.is_branch(root_gi, v2 as int) && s.child_idx(root_gi, v2 as int)
                    == f1 as int);
                assert(s.entry_at(f1 as int, v1 as int) == s_b.entry_at(
                    f1 as int,
                    v1 as int,
                )) by {
                    assert(f0 != f1);
                }
                assert(s.is_branch(f1 as int, v1 as int) && s.child_idx(f1 as int, v1 as int)
                    == f0 as int);
            }
            if flags & 2 == 2 {
                assert(entry_valid(leaf) && entry_readable(leaf) && entry_leaf(leaf));
                if level == 2 {
                    assert(s.entry_at(root_gi, vpn_of(virtual_address, 2) as int) == leaf);
                    assert(s.spec_translate(root_gi, virtual_address) == Option::Some(
                        translate_combine(leaf, virtual_address, 2),
                    ));
                    assert(translate_combine(leaf, virtual_address, 2) == (physical_address & (
                    !level_offset_mask(2))) | (virtual_address & level_offset_mask(2)));
                } else if level == 1 {
                    let e2n = s.entry_at(root_gi, vpn_of(virtual_address, 2) as int);
                    assert(f1 != root_fi);
                    assert(e2n == s_a.entry_at(root_gi, vpn_of(virtual_address, 2) as int));
                    assert(entry_valid(e2n) && !entry_leaf(e2n) && s_a.child_of(e2n) == f1 as int);
                    assert(s.child_of(e2n) == f1 as int);
                    assert(s.entry_at(f1 as int, vpn_of(virtual_address, 1) as int) == leaf);
                    assert(s.spec_translate(root_gi, virtual_address) == Option::Some(
                        translate_combine(leaf, virtual_address, 1),
                    ));
                } else {
                    let e2n = s.entry_at(root_gi, vpn_of(virtual_address, 2) as int);
                    assert(f0 != root_fi && f0 != f1 && f1 != root_fi) by {
                        let e1a = s_a.entry_at(f1 as int, v1 as int);
                        if entry_valid(e1a) {
                            assert(s_b == s_a);
                        }
                    }
                    assert(s_b.tables@[root_fi as int] == s_a.tables@[root_fi as int]) by {
                        let e1a = s_a.entry_at(f1 as int, v1 as int);
                        if entry_valid(e1a) {
                            assert(s_b == s_a);
                        } else {
                            assert(f0 != root_fi && f1 != root_fi);
                        }
                    }
                    assert(e2n == s_a.entry_at(root_gi, vpn_of(virtual_address, 2) as int));
                    assert(entry_valid(e2n) && !entry_leaf(e2n) && s_a.child_of(e2n) == f1 as int);
                    assert(s.child_of(e2n) == f1 as int);
                    let e1n = s.entry_at(f1 as int, vpn_of(virtual_address, 1) as int);
                    assert(e1n == s_b.entry_at(f1 as int, vpn_of(virtual_address, 1) as int));
                    assert(entry_valid(e1n) && !entry_leaf(e1n) && s_b.child_of(e1n) == f0 as int);
                    assert(s.child_of(e1n) == f0 as int);
                    assert(s.entry_at(f0 as int, vpn_of(virtual_address, 0) as int) == leaf);
                    assert(s.spec_translate(root_gi, virtual_address) == Option::Some(
                        translate_combine(leaf, virtual_address, 0),
                    ));
                }
            }
            if level == 0 && s0.user_table_wf(root_gi) {
                let rg = root_gi;
                let ff1 = f1 as int;
                let ff0 = f0 as int;
                let e1a = s_a.entry_at(ff1, v1 as int);
                assert(ff1 != rg && ff0 != rg && ff0 != ff1);
                assert(desc_taken(3u8)) by (bit_vector);
                // taken runs survive every step
                assert forall|j: int|
                    0 <= j < s0.page_count() && s0.descriptors@[j].flags == 3 implies #[trigger] s.descriptors@[j].flags == 3 by {
                    assert(s_a.descriptors@[j] == s0.descriptors@[j]);
                    assert(s_b.descriptors@[j] == s_a.descriptors@[j]);
                }
                // the root table changed only at the walked slot
                assert forall|e: int|
                    0 <= e < 512 && e != v2 as int implies #[trigger] s.entry_at(rg, e)
                        == s0.entry_at(rg, e) by {
                    assert(s_b.tables@[rg] == s_a.tables@[rg]) by {
                        if entry_valid(e1a) {
                            assert(s_b == s_a);
                        }
                    }
                    if entry_valid(e2old) {
                        assert(s_a == s0);
                    }
                }
                // the new root slot is a branch to the level-1 frame
                let vroot = s.entry_at(rg, v2 as int);
                assert(entry_valid(vroot) && !entry_leaf(vroot) && s.child_of(vroot) == ff1) by {
                    assert(s.tables@[rg] == s_b.tables@[rg]);
                    assert(s_b.tables@[rg] == s_a.tables@[rg]) by {
                        if entry_valid(e1a) {
                            assert(s_b == s_a);
                        }
                    }
                }
                // the level-1 frame changed only at its walked slot
                assert(s_pre == s_b);
                assert forall|e: int|
                    0 <= e < 512 && e != v1 as int implies #[trigger] s.entry_at(ff1, e) == (
                    if entry_valid(e2old) {
                        s0.entry_at(ff1, e)
                    } else {
                        0u64
                    }) by {
                    assert(s.tables@[ff1] == s_b.tables@[ff1]);
                    if entry_valid(e1a) {
                        assert(s_b == s_a);
                    } else {
                        assert(s_b.entry_at(ff1, e) == s_a.entry_at(ff1, e));
                    }
                    if !entry_valid(e2old) {
                        assert(s_a.tables@[ff1].all_zero());
                        assert(s_a.tables@[ff1].entries[e].entry == 0);
                        if entry_valid(e1a) {
                            lemma_zero_entry();
                            assert(false);
                        }
                    } else {
                        assert(s_a == s0);
                    }
                }
                let w1 = s.entry_at(ff1, v1 as int);
                assert(entry_valid(w1) && !entry_leaf(w1) && s.child_of(w1) == ff0) by {
                    assert(s.tables@[ff1] == s_b.tables@[ff1]);
                }
                // level-1 frame is intact and fresh frames were free
                assert(s.descriptors@[ff1].flags == 3 && s.descriptors@[ff0].flags == 3);
                assert(!entry_valid(e2old) ==> !desc_taken(s0.descriptors@[ff1].flags));
                assert(!entry_valid(e1a) ==> !desc_taken(s_a.descriptors@[ff0].flags));
                // any other frame's table is untouched
                assert forall|fx: int|
                    0 <= fx < s0.page_count() && fx != rg && fx != ff1 && fx != ff0 implies
                    #[trigger] s.tables@[fx] == s0.tables@[fx] by {
                    assert(s.tables@[fx] == s_b.tables@[fx]);
                    if entry_valid(e1a) {
                        assert(s_b == s_a);
                    }
                    if entry_valid(e2old) {
                        assert(s_a == s0);
                    }
                }
                assert forall|e2: int|
                    0 <= e2 < 512 implies s.l2_entry_ok(rg, #[trigger] s.entry_at(rg, e2)) by {
                    let v = s.entry_at(rg, e2);
                    if entry_valid(v) {
                        let c = if e2 == v2 as int {
                            ff1
                        } else {
                            s0.child_of(v)
                        };
                        if e2 != v2 as int {
                            assert(v == s0.entry_at(rg, e2));
                            assert(s0.l2_entry_ok(rg, v));
                            assert(s0.descriptors@[c].flags == 3);
                            assert(c != ff0) by {
                                if entry_valid(e1a) {
                                    assert(entry_valid(e2old));
                                    assert(s0.l2_entry_ok(rg, e2old));
                                    assert(s0.l1_entry_ok(rg, ff1, e1a));
                                } else {
                                    assert(!desc_taken(s_a.descriptors@[ff0].flags));
                                    assert(s_a.descriptors@[c] == s0.descriptors@[c]);
                                }
                            }
                        }
                        assert(s.child_of(v) == c);
                        assert(s.descriptors@[c].flags == 3);
                        assert(c != rg);
                        assert forall|e1: int|
                            0 <= e1 < 512 implies s.l1_entry_ok(rg, c, #[trigger] s.entry_at(c, e1)) by {
                            let w = s.entry_at(c, e1);
                            if entry_valid(w) {
                                if c == ff1 && e1 == v1 as int {
                                    // the new branch to the level-0 frame
                                    assert(s.child_of(w) == ff0);
                                    assert forall|e2b: int|
                                        0 <= e2b < 512 implies (entry_valid(
                                        #[trigger] s.entry_at(rg, e2b),
                                    ) ==> ff0 != s.child_of(s.entry_at(rg, e2b))) by {
                                        if e2b != v2 as int && entry_valid(s.entry_at(rg, e2b)) {
                                            let cb = s0.child_of(s.entry_at(rg, e2b));
                                            assert(s0.l2_entry_ok(rg, s0.entry_at(rg, e2b)));
                                            assert(s0.descriptors@[cb].flags == 3);
                                            if entry_valid(e1a) {
                                                assert(entry_valid(e2old));
                                                assert(s0.l2_entry_ok(rg, e2old));
                                                assert(s0.l1_entry_ok(rg, ff1, e1a));
                                            } else {
                                                assert(!desc_taken(s_a.descriptors@[ff0].flags));
                                                assert(s_a.descriptors@[cb] == s0.descriptors@[cb]);
                                            }
                                        }
                                    }
                                } else {
                                    // an entry that survives from before
                                    let w0 = w;
                                    assert(w0 == s0.entry_at(c, e1)) by {
                                        if c == ff1 {
                                            if !entry_valid(e2old) {
                                                assert(w == 0u64);
                                                lemma_zero_entry();
                                                assert(false);
                                            } else {
                                            }
                                        } else {
                                            assert(s.tables@[c] == s0.tables@[c]);
                                        }
                                    }
                                    assert(c == ff1 ==> entry_valid(e2old));
                                    assert(s0.l2_entry_ok(rg, s0.entry_at(rg, (if e2 == v2 as int { vpn_of(virtual_address, 2) as int } else { e2 }))));
                                    assert(s0.l1_entry_ok(rg, c, w0)) by {
                                        if e2 == v2 as int {
                                            assert(c == ff1 && entry_valid(e2old));
                                            assert(s0.child_of(e2old) == ff1);
                                            assert(s0.l2_entry_ok(rg, e2old));
                                        } else {
                                            assert(s0.l2_entry_ok(rg, v));
                                        }
                                    }
                                    let g = s0.child_of(w0);
                                    assert(s.child_of(w) == g);
                                    assert(s0.descriptors@[g].flags == 3);
                                    assert forall|e2b: int|
                                        0 <= e2b < 512 implies (entry_valid(
                                        #[trigger] s.entry_at(rg, e2b),
                                    ) ==> g != s.child_of(s.entry_at(rg, e2b))) by {
                                        if entry_valid(s.entry_at(rg, e2b)) {
                                            if e2b == v2 as int {
                                                // the slot now points at the level-1 frame
                                                if entry_valid(e2old) {
                                                    assert(s0.child_of(e2old) == ff1);
                                                } else {
                                                    assert(!desc_taken(
                                                        s0.descriptors@[ff1].flags,
                                                    ));
                                                }
                                            } else {
                                                assert(s0.l2_entry_ok(rg, s0.entry_at(rg, e2b)));
                                            }
                                        }
                                    }
                                }
                            }
                        }
                    }
                }
                if s0.user_table_distinct(rg) {
                    assert forall|ea: int, eb: int|
                        0 <= ea < 512 && 0 <= eb < 512 && ea != eb && s.is_branch(rg, ea)
                            && s.is_branch(rg, eb) implies #[trigger] s.child_idx(rg, ea)
                        != #[trigger] s.child_idx(rg, eb) by {
                        if ea != v2 as int && eb != v2 as int {
                            assert(s.entry_at(rg, ea) == s0.entry_at(rg, ea));
                            assert(s.entry_at(rg, eb) == s0.entry_at(rg, eb));
                            assert(s0.child_idx(rg, ea) != s0.child_idx(rg, eb));
                        } else {
                            let eo = if ea == v2 as int {
                                eb
                            } else {
                                ea
                            };
                            assert(s.entry_at(rg, eo) == s0.entry_at(rg, eo));
                            assert(s0.l2_entry_ok(rg, s0.entry_at(rg, eo)));
                            let co = s0.child_idx(rg, eo);
                            assert(s0.descriptors@[co].flags == 3);
                            if entry_valid(e2old) {
                                assert(s0.child_idx(rg, v2 as int) == ff1);
                            } else {
                                assert(!desc_taken(s0.descriptors@[ff1].flags));
                            }
                            assert(co != ff1);
                        }
                    }
                    assert forall|ea: int, fa: int, eb: int, fb: int|
                        0 <= ea < 512 && 0 <= fa < 512 && 0 <= eb < 512 && 0 <= fb < 512 && (ea
                            != eb || fa != fb) && s.is_branch(rg, ea) && s.is_branch(rg, eb)
                            && s.is_branch(s.child_idx(rg, ea), fa) && s.is_branch(
                            s.child_idx(rg, eb),
                            fb,
                        ) implies #[trigger] s.child_idx(s.child_idx(rg, ea), fa)
                        != #[trigger] s.child_idx(s.child_idx(rg, eb), fb) by {
                        lemma_map_gc_case(s0, s, rg, v2 as int, v1 as int, ff1, ff0, e2old, ea, fa);
                        lemma_map_gc_case(s0, s, rg, v2 as int, v1 as int, ff1, ff0, e2old, eb, fb);
                        let ga = s.child_idx(s.child_idx(rg, ea), fa);
                        let gb = s.child_idx(s.child_idx(rg, eb), fb);
                        if ga == ff0 && gb == ff0 && !(ea == eb && fa == fb) {
                            if (ea == v2 as int && fa == v1 as int) && (eb == v2 as int && fb
                                == v1 as int) {
                            } else {
                                let xe = if ea == v2 as int && fa == v1 as int {
                                    eb
                                } else {
                                    ea
                                };
                                let xf = if ea == v2 as int && fa == v1 as int {
                                    fb
                                } else {
                                    fa
                                };
                                assert(s0.is_branch(rg, xe) && s0.is_branch(
                                    s0.child_idx(rg, xe),
                                    xf,
                                ) && s0.child_idx(s0.child_idx(rg, xe), xf) == ff0);
                                if entry_valid(e1a) {
                                    assert(s0.is_branch(rg, v2 as int) && s0.is_branch(
                                        s0.child_idx(rg, v2 as int),
                                        v1 as int,
                                    ));
                                    assert(s0.child_idx(
                                        s0.child_idx(rg, v2 as int),
                                        v1 as int,
                                    ) == ff0);
                                    assert((xe != v2 as int || xf != v1 as int));
                                    assert(false);
                                } else {
                                    assert(!desc_taken(s_a.descriptors@[ff0].flags));
                                    assert(s0.l2_entry_ok(rg, s0.entry_at(rg, xe)));
                                    assert(s0.l1_entry_ok(
                                        rg,
                                        s0.child_idx(rg, xe),
                                        s0.entry_at(s0.child_idx(rg, xe), xf),
                                    ));
                                    assert(s0.descriptors@[ff0].flags == 3);
                                    assert(desc_taken(s0.descriptors@[ff0].flags));
                                    assert(s_a.descriptors@[ff0] == s0.descriptors@[ff0]);
                                    assert(false);
                                }
                            }
                        }
                    }
                    assert forall|f: int|
                        s.tree_member(rg, f) && desc_taken(
                        s0.descriptors@[f].flags,
                    ) implies s0.tree_member(rg, f) by {
                        let e2 = choose|e2: int|
                            0 <= e2 < 512 && #[trigger] s.is_branch(rg, e2) && (s.child_idx(
                                rg,
                                e2,
                            ) == f || exists|e1: int|
                                0 <= e1 < 512 && #[trigger] s.is_branch(
                                    s.child_idx(rg, e2),
                                    e1,
                                ) && s.child_idx(s.child_idx(rg, e2), e1) == f);
                        if s.child_idx(rg, e2) == f {
                            if e2 == v2 as int {
                                if entry_valid(e2old) {
                                    assert(s0.is_branch(rg, v2 as int) && s0.child_idx(
                                        rg,
                                        v2 as int,
                                    ) == ff1);
                                } else {
                                    assert(!desc_taken(s0.descriptors@[ff1].flags));
                                }
                            } else {
                                assert(s.entry_at(rg, e2) == s0.entry_at(rg, e2));
                                assert(s0.is_branch(rg, e2) && s0.child_idx(rg, e2) == f);
                            }
                        } else {
                            let e1 = choose|e1: int|
                                0 <= e1 < 512 && #[trigger] s.is_branch(
                                    s.child_idx(rg, e2),
                                    e1,
                                ) && s.child_idx(s.child_idx(rg, e2), e1) == f;
                            lemma_map_gc_case(
                                s0,
                                s,
                                rg,
                                v2 as int,
                                v1 as int,
                                ff1,
                                ff0,
                                e2old,
                                e2,
                                e1,
                            );
                            if e2 == v2 as int && e1 == v1 as int && f == ff0 {
                                let e1b = s_a.entry_at(ff1, v1 as int);
                                if entry_valid(e1b) {
                                    assert(entry_valid(e2old)) by {
                                        if !entry_valid(e2old) {
                                            assert(s_a.tables@[ff1].all_zero());
                                            assert(s_a.tables@[ff1].entries[v1 as int].entry
                                                == 0);
                                            lemma_zero_entry();
                                        }
                                    }
                                    assert(s_a == s0);
                                    assert(s0.is_branch(rg, v2 as int) && s0.child_idx(
                                        rg,
                                        v2 as int,
                                    ) == ff1);
                                    assert(s0.is_branch(s0.child_idx(rg, v2 as int), v1 as int)
                                        && s0.child_idx(
                                        s0.child_idx(rg, v2 as int),
                                        v1 as int,
                                    ) == ff0);
                                } else {
                                    assert(!desc_taken(s_a.descriptors@[ff0].flags));
                                    assert(s_a.descriptors@[ff0] == s0.descriptors@[ff0]) by {
                                        if !entry_valid(e2old) {
                                            assert(ff0 != ff1);
                                        }
                                    }
                                    assert(false);
                                }
                            } else {
                                assert(s0.is_branch(rg, e2) && s0.is_branch(
                                    s0.child_idx(rg, e2),
                                    e1,
                                ) && s0.child_idx(s0.child_idx(rg, e2), e1) == f);
                            }
                        }
                    }
                    // any address off the written page translates as before
                    let e1a = s_a.entry_at(ff1, v1 as int);
                    let f0_old = entry_valid(e1a);
                    assert forall|y: int|
                        0 <= y < 512 && y != v0 as int implies #[trigger] s.entry_at(ff0, y)
                        == (if f0_old {
                        s0.entry_at(ff0, y)
                    } else {
                        0u64
                    }) by {
                        assert(s.entry_at(ff0, y) == s_b.entry_at(ff0, y));
                        if f0_old {
                            assert(s_b == s_a);
                            assert(entry_valid(e2old)) by {
                                if !entry_valid(e2old) {
                                    assert(s_a.tables@[ff1].all_zero());
                                    assert(s_a.tables@[ff1].entries[v1 as int].entry == 0);
                                    lemma_zero_entry();
                                }
                            }
                            assert(s_a == s0);
                        } else {
                            assert(s_b.tables@[ff0].all_zero());
                            assert(s_b.tables@[ff0].entries[y].entry == 0);
                        }
                    }
                    assert(f0_old ==> (entry_valid(e2old) && s0.is_branch(ff1, v1 as int)
                        && s0.child_idx(ff1, v1 as int) == ff0 && entry_valid(
                        s0.entry_at(ff1, v1 as int),
                    ))) by {
                        if f0_old {
                            assert(entry_valid(e2old)) by {
                                if !entry_valid(e2old) {
                                    assert(s_a.tables@[ff1].all_zero());
                                    assert(s_a.tables@[ff1].entries[v1 as int].entry == 0);
                                    lemma_zero_entry();
                                }
                            }
                            assert(s_a == s0);
                        }
                    }
                    assert(!f0_old ==> !desc_taken(s0.descriptors@[ff0].flags)) by {
                        if !f0_old {
                            assert(!desc_taken(s_a.descriptors@[ff0].flags));
                            assert(s_a.descriptors@[ff0] == s0.descriptors@[ff0]) by {
                                if !entry_valid(e2old) {
                                    assert(ff0 != ff1);
                                }
                            }
                        }
                    }
                    assert(!f0_old ==> (!entry_valid(s0.entry_at(ff1, v1 as int))
                        || !entry_valid(e2old))) by {
                        if !f0_old && entry_valid(e2old) {
                            assert(s_a == s0);
                        }
                    }
                    assert forall|va2: u64|
                        (vpn_of(va2, 2) != vpn_of(virtual_address, 2) || vpn_of(va2, 1)
                            != vpn_of(virtual_address, 1) || vpn_of(va2, 0) != vpn_of(
                            virtual_address,
                            0,
                        )) implies #[trigger] s.spec_translate(rg, va2) == s0.spec_translate(
                        rg,
                        va2,
                    ) by {
                        lemma_map_preserves_other_paths(
                            s0,
                            s,
                            rg,
                            virtual_address,
                            ff1,
                            ff0,
                            e2old,
                            f0_old,
                            va2,
                        );
                    }
                }
            }
            assert forall|m: int|
                #[trigger] can_alloc(s0.descriptors@, m) && m > miss implies can_alloc(
                s.descriptors@,
                m - miss,
            ) by {
                assert(s.descriptors@ == s_pre.descriptors@);
                if level == 2 {
                    assert(s_pre == s0);
                    assert(miss == 0);
                    lemma_can_alloc_mono(s0.descriptors@, m, m);
                } else if level == 1 {
                    assert(s_pre == s_a);
                    if entry_valid(e2old) {
                        assert(miss == 0 && s_a == s0);
                        lemma_can_alloc_mono(s0.descriptors@, m, m);
                    } else {
                        assert(miss == 1);
                        assert(can_alloc(s_a.descriptors@, m - 1));
                    }
                } else {
                    assert(s_pre == s_b);
                    let e1a = s_a.entry_at(f1 as int, v1 as int);
                    if entry_valid(e2old) {
                        assert(s_a == s0);
                        if entry_valid(e1a) {
                            assert(miss == 0 && s_b == s_a);
                            lemma_can_alloc_mono(s0.descriptors@, m, m);
                        } else {
                            assert(miss == 1);
                            assert(can_alloc(s_b.descriptors@, m - 1));
                        }
                    } else {
                        assert(miss == 2);
                        assert(can_alloc(s_a.descriptors@, m - 1));
                        assert(s_a.tables@[f1 as int].all_zero());
                        assert(s_a.entry_at(f1 as int, v1 as int) == 0);
                        lemma_zero_entry();
                        assert(!entry_valid(e1a));
                        assert(can_alloc(s_b.descriptors@, m - 2));
                    }
                }
            }
        }
    }
}

impl Memory {
    /// Walk the tables for `virtual_address` exactly as the hardware would:
    /// fault (give nothing) on an invalid entry or on write-without-read,
    /// and on a leaf recombine the entry's page numbers with the offset
    /// mask of the level the leaf was found at.
    pub fn virtual_address_translation(&self, root: u64, virtual_address: u64) -> (r: Option<
        u64,
    >)
        requires
            self.wf(),
            root >= self.base,
            (root - self.base) % 4096 == 0,
            self.spec_page_index(root) < self.page_count(),
            self.translate_walk_ok(self.spec_page_index(root), virtual_address),
        ensures
            r == self.spec_translate(self.spec_page_index(root), virtual_address),
    {
        let ghost root_gi = self.spec_page_index(root);
        let root_fi = ((root - self.base) / 4096) as usize;
        proof {
            assert(root_fi as int == root_gi);
            lemma_vpn_bounds(virtual_address);
        }
        let v2 = ((virtual_address >> 30) & 0x1ff) as usize;
        let v1 = ((virtual_address >> 21) & 0x1ff) as usize;
        let v0 = ((virtual_address >> 12) & 0x1ff) as usize;
        let pte2 = self.tables[root_fi].entries[v2];
        if !pte2.is_valid() || (!pte2.is_readable() && pte2.is_writable()) {
            return Option::None;
        }
        if pte2.is_leaf() {
            let offset_mask = 0x3fff_ffffu64;
            return Option::Some(((pte2.entry << 2) & !offset_mask) | (virtual_address
                & offset_mask));
        }
        let f1 = ((pte2.get_physical_address() - self.base) / 4096) as usize;
        proof {
            assert(self.branch_ok(self.entry_at(root_gi, v2 as int)));
            assert(f1 as int == self.child_of(pte2.entry));
        }
        let pte1 = self.tables[f1].entries[v1];
        if !pte1.is_valid() || (!pte1.is_readable() && pte1.is_writable()) {
            return Option::None;
        }
        if pte1.is_leaf() {
            let offset_mask = 0x1f_ffffu64;
            return Option::Some(((pte1.entry << 2) & !offset_mask) | (virtual_address
                & offset_mask));
        }
        let f0 = ((pte1.get_physical_address() - self.base) / 4096) as usize;
        proof {
            assert(self.branch_ok(self.entry_at(f1 as int, v1 as int)));
            assert(f0 as int == self.child_of(pte1.entry));
        }
        let pte0 = self.tables[f0].entries[v0];
        if !pte0.is_valid() || (!pte0.is_readable() && pte0.is_writable()) {
            return Option::None;
        }
        proof {
            assert(entry_leaf(pte0.entry));
        }
        let offset_mask = 0xfffu64;
        Option::Some(((pte0.entry << 2) & !offset_mask) | (virtual_address & offset_mask))
    }
}

/// Law: after `map(va, pa, flags, 0)` with Read among the flags, the table
/// translates `va` to exactly `pa`, for addresses that agree on their page
/// offset (identity maps and page-aligned pairs do). `map`'s own contract
/// gives the translation over the offset mask; this folds the offsets in.
pub proof fn lemma_map_then_translate(post: Memory, root_fi: int, va: u64, pa: u64, flags: u64)
    requires
        flags & 2 == 2,
        post.spec_translate(root_fi, va) == Option::Some(
            ((pa & (!level_offset_mask(0))) | (va & level_offset_mask(0))),
        ),
        va % 4096 == pa % 4096,
    ensures
        post.spec_translate(root_fi, va) == Option::Some(pa),
{
    assert(va % 4096 == pa % 4096 ==> ((pa & (!0xfffu64)) | (va & 0xfffu64)) == pa)
        by (bit_vector);
}

/// How many pages the identity-map loop walks over `[start, end)`.
pub open spec fn pages_in(start: u64, end: u64) -> int
    decreases end - start,
{
    if start >= end {
        0
    } else if end - start <= 4096 {
        1
    } else {
        1 + pages_in((start + 4096) as u64, end)
    }
}

/// A range of exactly `n` whole pages walks `n` map steps.
pub proof fn lemma_pages_in_whole(start: u64, n: u64)
    requires
        start + 4096 * n <= u64::MAX,
    ensures
        pages_in(start, (start + 4096 * n) as u64) == n,
    decreases n,
{
    if n > 0 {
        lemma_pages_in_whole((start + 4096) as u64, (n - 1) as u64);
        assert((start + 4096) + 4096 * ((n - 1) as u64) == start + 4096 * n);
    }
}

/// The stamped descriptor values read as taken.
pub proof fn lemma_taken_three()
    ensures
        desc_taken(3u8),
        desc_taken(1u8),
        !desc_taken(0u8),
        desc_last(3u8),
{
    assert(desc_taken(3u8) && desc_taken(1u8) && !desc_taken(0u8) && desc_last(3u8))
        by (bit_vector);
}

impl Memory {
    /// Entry `(fi, ei)` is a valid branch.
    pub open spec fn is_branch(&self, fi: int, ei: int) -> bool {
        entry_valid(self.entry_at(fi, ei)) && !entry_leaf(self.entry_at(fi, ei))
    }

    /// The frame entry `(fi, ei)` branches to.
    pub open spec fn child_idx(&self, fi: int, ei: int) -> int {
        self.child_of(self.entry_at(fi, ei))
    }

    /// No two branches of a user table share a frame: the level-1 children
    /// are pairwise distinct, and so are the level-0 frames under them.
    /// (That a level-0 frame never doubles as a level-1 child is already
    /// part of `user_table_wf`.)
    pub open spec fn user_table_distinct(&self, root: int) -> bool {
        &&& forall|ea: int, eb: int|
            0 <= ea < 512 && 0 <= eb < 512 && ea != eb && self.is_branch(root, ea)
                && self.is_branch(root, eb) ==> #[trigger] self.child_idx(root, ea)
                != #[trigger] self.child_idx(root, eb)
        &&& forall|ea: int, fa: int, eb: int, fb: int|
            0 <= ea < 512 && 0 <= fa < 512 && 0 <= eb < 512 && 0 <= fb < 512 && (ea != eb || fa
                != fb) && self.is_branch(root, ea) && self.is_branch(root, eb) && self.is_branch(
                self.child_idx(root, ea),
                fa,
            ) && self.is_branch(self.child_idx(root, eb), fb)
                ==> #[trigger] self.child_idx(self.child_idx(root, ea), fa)
                != #[trigger] self.child_idx(self.child_idx(root, eb), fb)
    }

    /// Frame `f` backs one of the user table's intermediate tables: it is
    /// a level-1 child of the root or a level-0 frame under one.
    pub open spec fn tree_member(&self, root: int, f: int) -> bool {
        exists|e2: int|
            0 <= e2 < 512 && #[trigger] self.is_branch(root, e2) && (self.child_idx(root, e2)
                == f || exists|e1: int|
                0 <= e1 < 512 && #[trigger] self.is_branch(self.child_idx(root, e2), e1)
                    && self.child_idx(self.child_idx(root, e2), e1) == f)
    }

    /// Free every intermediate table of the user table at `root`, walking
    /// post-order: each level-0 frame under a branch, then its level-1
    /// frame. Leaves alias identity-mapped regions the process does not
    /// own and stay; so does the root itself, which the caller frees.
    pub fn unmap(&mut self, root: u64)
        requires
            old(self).wf(),
            root >= old(self).base,
            (root - old(self).base) % 4096 == 0,
            old(self).spec_page_index(root) < old(self).page_count(),
            old(self).user_table_wf(old(self).spec_page_index(root)),
            old(self).user_table_distinct(old(self).spec_page_index(root)),
        ensures
            final(self).wf(),
            final(self).base == old(self).base,
            final(self).tables@ == old(self).tables@,
            final(self).page_count() == old(self).page_count(),
            forall|j: int|
                0 <= j < old(self).page_count() ==> (#[trigger] final(self).descriptors@[j]
                    == old(self).descriptors@[j] || final(self).descriptors@[j].flags == 0),
            forall|e2: int|
                0 <= e2 < 512 && old(self).is_branch(old(self).spec_page_index(root), e2)
                    ==> !desc_taken(
                    #[trigger] final(self).descriptors@[old(self).child_idx(
                        old(self).spec_page_index(root),
                        e2,
                    )].flags,
                ),
            forall|e2: int, e1: int|
                0 <= e2 < 512 && 0 <= e1 < 512 && old(self).is_branch(
                    old(self).spec_page_index(root),
                    e2,
                ) && old(self).is_branch(
                    old(self).child_idx(old(self).spec_page_index(root), e2),
                    e1,
                ) ==> !desc_taken(
                    #[trigger] final(self).descriptors@[old(self).child_idx(
                        old(self).child_idx(old(self).spec_page_index(root), e2),
                        e1,
                    )].flags,
                ),
            forall|j: int|
                0 <= j < old(self).page_count() && !old(self).tree_member(
                    old(self).spec_page_index(root),
                    j,
                ) ==> #[trigger] final(self).descriptors@[j] == old(self).descriptors@[j],
            final(self).descriptors@[old(self).spec_page_index(root)] == old(self).descriptors@[old(
                self,
            ).spec_page_index(root)],
    {
        let ghost rg = old(self).spec_page_index(root);
        let ghost s0 = *old(self);
        let root_fi = ((root - self.base) / 4096) as usize;
        proof {
            assert(root_fi as int == rg);
            lemma_taken_three();
            lemma_zero_entry();
        }
        let mut e2: usize = 0;
        while e2 < 512
            invariant
                self.wf(),
                self.base == s0.base,
                self.tables@ == s0.tables@,
                self.page_count() == s0.page_count(),
                s0 == *old(self),
                s0.wf(),
                root_fi as int == rg,
                0 <= rg < s0.page_count(),
                s0.user_table_wf(rg),
                s0.user_table_distinct(rg),
                0 <= e2 <= 512,
                desc_taken(3u8) && !desc_taken(0u8),
                root >= s0.base,
                (root - s0.base) % 4096 == 0,
                forall|j: int|
                    0 <= j < s0.page_count() ==> (#[trigger] self.descriptors@[j]
                        == s0.descriptors@[j] || self.descriptors@[j].flags == 0),
                forall|e: int|
                    e2 <= e < 512 && s0.is_branch(rg, e) ==> #[trigger] self.descriptors@[s0.child_idx(
                        rg,
                        e,
                    )] == s0.descriptors@[s0.child_idx(rg, e)],
                forall|e: int, f: int|
                    e2 <= e < 512 && 0 <= f < 512 && s0.is_branch(rg, e) && s0.is_branch(
                        s0.child_idx(rg, e),
                        f,
                    ) ==> #[trigger] self.descriptors@[s0.child_idx(s0.child_idx(rg, e), f)]
                        == s0.descriptors@[s0.child_idx(s0.child_idx(rg, e), f)],
                forall|e: int|
                    0 <= e < e2 && s0.is_branch(rg, e) ==> !desc_taken(
                        (#[trigger] self.descriptors@[s0.child_idx(rg, e)]).flags,
                    ),
                forall|e: int, f: int|
                    0 <= e < e2 && 0 <= f < 512 && s0.is_branch(rg, e) && s0.is_branch(
                        s0.child_idx(rg, e),
                        f,
                    ) ==> !desc_taken(
                        (#[trigger] self.descriptors@[s0.child_idx(
                            s0.child_idx(rg, e),
                            f,
                        )]).flags,
                    ),
                forall|j: int|
                    0 <= j < s0.page_count() && !s0.tree_member(rg, j)
                        ==> #[trigger] self.descriptors@[j] == s0.descriptors@[j],
                self.descriptors@[rg] == s0.descriptors@[rg],
            decreases 512 - e2,
        {
            let entry = self.tables[root_fi].entries[e2];
            if entry.is_valid() && !entry.is_leaf() {
                proof {
                    assert(self.branch_ok(self.entry_at(rg, e2 as int)));
                    assert(s0.l2_entry_ok(rg, s0.entry_at(rg, e2 as int)));
                }
                let table_pa = entry.get_physical_address();
                let child = ((table_pa - self.base) / 4096) as usize;
                proof {
                    assert(child as int == s0.child_idx(rg, e2 as int));
                }
                let mut e1: usize = 0;
                while e1 < 512
                    invariant
                        self.wf(),
                        self.base == s0.base,
                        self.tables@ == s0.tables@,
                        self.page_count() == s0.page_count(),
                        s0 == *old(self),
                        s0.wf(),
                        root_fi as int == rg,
                        0 <= rg < s0.page_count(),
                        s0.user_table_wf(rg),
                        s0.user_table_distinct(rg),
                        0 <= e2 < 512,
                        0 <= e1 <= 512,
                        desc_taken(3u8) && !desc_taken(0u8),
                        root >= s0.base,
                        (root - s0.base) % 4096 == 0,
                        s0.is_branch(rg, e2 as int),
                        child as int == s0.child_idx(rg, e2 as int),
                        table_pa == entry_physical_address(s0.entry_at(rg, e2 as int)),
                        table_pa >= s0.base,
                        (table_pa - s0.base) % 4096 == 0,
                        0 <= (child as int) < s0.page_count(),
                        forall|j: int|
                            0 <= j < s0.page_count() ==> (#[trigger] self.descriptors@[j]
                                == s0.descriptors@[j] || self.descriptors@[j].flags == 0),
                        forall|e: int|
                            e2 as int <= e < 512 && s0.is_branch(rg, e)
                                ==> #[trigger] self.descriptors@[s0.child_idx(rg, e)]
                                == s0.descriptors@[s0.child_idx(rg, e)],
                        forall|e: int, f: int|
                            e2 as int <= e < 512 && 0 <= f < 512 && s0.is_branch(rg, e)
                                && s0.is_branch(s0.child_idx(rg, e), f) && (e > e2 as int || f
                                >= e1 as int) ==> #[trigger] self.descriptors@[s0.child_idx(
                                s0.child_idx(rg, e),
                                f,
                            )] == s0.descriptors@[s0.child_idx(s0.child_idx(rg, e), f)],
                        forall|e: int|
                            0 <= e < e2 as int && s0.is_branch(rg, e) ==> !desc_taken(
                                (#[trigger] self.descriptors@[s0.child_idx(rg, e)]).flags,
                            ),
                        forall|e: int, f: int|
                            0 <= e < 512 && 0 <= f < 512 && s0.is_branch(rg, e) && s0.is_branch(
                                s0.child_idx(rg, e),
                                f,
                            ) && (e < e2 as int || (e == e2 as int && f < e1 as int))
                                ==> !desc_taken(
                                (#[trigger] self.descriptors@[s0.child_idx(
                                    s0.child_idx(rg, e),
                                    f,
                                )]).flags,
                            ),
                        forall|j: int|
                            0 <= j < s0.page_count() && !s0.tree_member(rg, j)
                                ==> #[trigger] self.descriptors@[j] == s0.descriptors@[j],
                        self.descriptors@[rg] == s0.descriptors@[rg],
                    decreases 512 - e1,
                {
                    let sub = self.tables[child].entries[e1];
                    if sub.is_valid() && !sub.is_leaf() {
                        proof {
                            assert(s0.l1_entry_ok(
                                rg,
                                child as int,
                                s0.entry_at(child as int, e1 as int),
                            ));
                            assert(self.branch_ok(self.entry_at(child as int, e1 as int)));
                        }
                        let sub_pa = sub.get_physical_address();
                        let ghost gi = s0.child_idx(s0.child_idx(rg, e2 as int), e1 as int);
                        proof {
                            assert(s0.spec_page_index(sub_pa) == gi);
                            assert(self.descriptors@[gi] == s0.descriptors@[gi]);
                            assert(s0.descriptors@[gi].flags == 3);
                            assert(is_alloc_run(self.descriptors@, gi, gi));
                        }
                        let ghost pre = *self;
                        self.dealloc(sub_pa);
                        proof {
                            lemma_run_end_unique(
                                pre.descriptors@,
                                gi,
                                spec_run_end(pre.descriptors@, gi),
                                gi,
                            );
                            assert(self.descriptors@ == clear_run(pre.descriptors@, gi, gi));
                            assert(s0.is_branch(rg, e2 as int));
                            assert(s0.is_branch(s0.child_idx(rg, e2 as int), e1 as int));
                            assert(s0.tree_member(rg, gi));
                            assert forall|e: int, f: int|
                                e2 as int <= e < 512 && 0 <= f < 512 && s0.is_branch(rg, e)
                                    && s0.is_branch(s0.child_idx(rg, e), f) && (e > e2 as int || f
                                    >= e1 as int + 1) implies #[trigger] self.descriptors@[s0.child_idx(
                                s0.child_idx(rg, e),
                                f,
                            )] == s0.descriptors@[s0.child_idx(s0.child_idx(rg, e), f)] by {
                                assert(s0.child_idx(s0.child_idx(rg, e), f) != gi);
                            }
                            assert forall|e: int|
                                e2 as int <= e < 512 && s0.is_branch(rg, e)
                                    implies #[trigger] self.descriptors@[s0.child_idx(rg, e)]
                                    == s0.descriptors@[s0.child_idx(rg, e)] by {
                                assert(s0.l1_entry_ok(
                                    rg,
                                    child as int,
                                    s0.entry_at(child as int, e1 as int),
                                ));
                                assert(s0.child_idx(rg, e) != gi);
                            }
                            assert(self.descriptors@[rg] == s0.descriptors@[rg]) by {
                                assert(rg != gi);
                            }
                        }
                    }
                    e1 = e1 + 1;
                }
                proof {
                    assert(self.spec_page_index(table_pa) == child as int);
                    assert(self.descriptors@[child as int] == s0.descriptors@[child as int]);
                    assert(s0.descriptors@[child as int].flags == 3);
                    assert(is_alloc_run(self.descriptors@, child as int, child as int));
                }
                let ghost pre = *self;
                self.dealloc(table_pa);
                proof {
                    lemma_run_end_unique(
                        pre.descriptors@,
                        child as int,
                        spec_run_end(pre.descriptors@, child as int),
                        child as int,
                    );
                    assert(self.descriptors@ == clear_run(
                        pre.descriptors@,
                        child as int,
                        child as int,
                    ));
                    assert(s0.is_branch(rg, e2 as int));
                    assert(s0.tree_member(rg, child as int));
                    assert forall|e: int, f: int|
                        0 <= e < 512 && 0 <= f < 512 && s0.is_branch(rg, e) && s0.is_branch(
                        s0.child_idx(rg, e),
                        f,
                    ) && (e < e2 as int + 1) implies !desc_taken(
                        (#[trigger] self.descriptors@[s0.child_idx(
                            s0.child_idx(rg, e),
                            f,
                        )]).flags,
                    ) by {
                        assert(s0.l2_entry_ok(rg, s0.entry_at(rg, e)));
                        assert(s0.l1_entry_ok(
                            rg,
                            s0.child_idx(rg, e),
                            s0.entry_at(s0.child_idx(rg, e), f),
                        ));
                        assert(s0.child_idx(s0.child_idx(rg, e), f) != child as int);
                    }
                    assert forall|e: int|
                        e2 as int + 1 <= e < 512 && s0.is_branch(rg, e)
                            implies #[trigger] self.descriptors@[s0.child_idx(rg, e)]
                            == s0.descriptors@[s0.child_idx(rg, e)] by {
                        assert(s0.child_idx(rg, e) != child as int);
                    }
                    assert forall|e: int, f: int|
                        e2 as int + 1 <= e < 512 && 0 <= f < 512 && s0.is_branch(rg, e)
                            && s0.is_branch(s0.child_idx(rg, e), f)
                            implies #[trigger] self.descriptors@[s0.child_idx(
                        s0.child_idx(rg, e),
                        f,
                    )] == s0.descriptors@[s0.child_idx(s0.child_idx(rg, e), f)] by {
                        assert(s0.l2_entry_ok(rg, s0.entry_at(rg, e)));
                        assert(s0.l1_entry_ok(
                            rg,
                            s0.child_idx(rg, e),
                            s0.entry_at(s0.child_idx(rg, e), f),
                        ));
                        assert(s0.child_idx(s0.child_idx(rg, e), f) != child as int);
                    }
                    assert(self.descriptors@[rg] == s0.descriptors@[rg]) by {
                        assert(rg != child as int);
                    }
                }
            }
            e2 = e2 + 1;
        }
    }
}

/// Taken pages form proper runs: a Taken-but-not-Last descriptor is always
/// followed by more of its run. `alloc` only ever stamps such runs and
/// `dealloc` clears whole ones.
#[verifier::opaque]
pub open spec fn runs_form(d: Seq<PageDescriptor>) -> bool {
    forall|i: int|
        0 <= i < d.len() && #[trigger] d[i].flags == 1 ==> i + 1 < d.len() && (d[i + 1].flags == 1
            || d[i + 1].flags == 3)
}

impl Memory {
    /// The allocation table as the diagnostic printout walks it: each
    /// allocated run as its first and last page index. Every reported pair
    /// is a real run, and every taken page lies in some reported run.
    #[verifier::rlimit(100)]
    #[verifier::spinoff_prover]
    pub fn page_allocation_runs(&self) -> (runs: Vec<(u64, u64)>)
        requires
            self.wf(),
            runs_form(self.descriptors@),
        ensures
            forall|k: int|
                0 <= k < runs@.len() ==> is_alloc_run(
                    self.descriptors@,
                    (#[trigger] runs@[k]).0 as int,
                    runs@[k].1 as int,
                ),
            forall|j: int|
                0 <= j < self.page_count() && desc_taken(#[trigger] self.descriptors@[j].flags)
                    ==> exists|k: int|
                    0 <= k < runs@.len() && (#[trigger] runs@[k]).0 <= j <= runs@[k].1,
    {
        proof {
            lemma_taken_three();
        }
        let n = self.descriptors.len();
        let mut runs: Vec<(u64, u64)> = Vec::new();
        let mut i: usize = 0;
        while i < n
            invariant
                self.wf(),
                runs_form(self.descriptors@),
                n == self.descriptors@.len(),
                0 <= i <= n,
                desc_taken(1u8) && desc_taken(3u8) && !desc_taken(0u8),
                forall|k: int|
                    0 <= k < runs@.len() ==> (is_alloc_run(
                        self.descriptors@,
                        (#[trigger] runs@[k]).0 as int,
                        runs@[k].1 as int,
                    ) && runs@[k].1 < i),
                forall|j: int|
                    0 <= j < i && desc_taken(#[trigger] self.descriptors@[j].flags)
                        ==> exists|k: int|
                        0 <= k < runs@.len() && (#[trigger] runs@[k]).0 <= j <= runs@[k].1,
            decreases n - i,
        {
            if self.descriptors[i].is_taken() {
                let start = i;
                let mut j = i;
                proof {
                    assert(self.descriptors@[i as int].flags == 1 || self.descriptors@[i as int].flags == 3);
                }
                while self.descriptors[j].get_flags_word() == 1
                    invariant
                        self.wf(),
                        runs_form(self.descriptors@),
                        n == self.descriptors@.len(),
                        start <= j < n,
                        forall|x: int|
                            start <= x < j ==> #[trigger] self.descriptors@[x].flags == 1,
                        self.descriptors@[j as int].flags == 1 || self.descriptors@[j as int].flags
                            == 3,
                    decreases n - j,
                {
                    proof {
                        reveal(runs_form);
                    }
                    j = j + 1;
                }
                proof {
                    assert(self.descriptors@[j as int].flags == 3);
                    assert(is_alloc_run(self.descriptors@, start as int, j as int));
                }
                let ghost old_runs = runs@;
                runs.push((start as u64, j as u64));
                proof {
                    let kk = runs@.len() - 1;
                    assert(runs@[kk] == (start as u64, j as u64));
                    assert forall|k: int|
                        0 <= k < runs@.len() implies (is_alloc_run(
                        self.descriptors@,
                        (#[trigger] runs@[k]).0 as int,
                        runs@[k].1 as int,
                    ) && runs@[k].1 < j + 1) by {
                        if k < kk {
                            assert(runs@[k] == old_runs[k]);
                            assert(is_alloc_run(
                                self.descriptors@,
                                old_runs[k].0 as int,
                                old_runs[k].1 as int,
                            ));
                        }
                    }
                    assert forall|jj: int|
                        0 <= jj < j + 1 && desc_taken(
                        #[trigger] self.descriptors@[jj].flags,
                    ) implies exists|k: int|
                        0 <= k < runs@.len() && (#[trigger] runs@[k]).0 <= jj <= runs@[k].1 by {
                        if jj < start {
                            let k0 = choose|k: int|
                                0 <= k < old_runs.len() && (#[trigger] old_runs[k]).0 <= jj
                                    <= old_runs[k].1;
                            assert(runs@[k0] == old_runs[k0]);
                            assert((#[trigger] runs@[k0]).0 <= jj <= runs@[k0].1);
                        } else {
                            assert((#[trigger] runs@[kk]).0 <= jj <= runs@[kk].1);
                        }
                    }
                }
                i = j + 1;
            } else {
                i = i + 1;
            }
        }
        runs
    }
}

/// A user table survives descriptor changes that stay off its frames:
/// with the tables themselves untouched and every member frame's
/// descriptor kept, shape, distinctness and membership carry over.
pub proof fn lemma_user_table_unchanged(m1: Memory, m2: Memory, root: int)
    requires
        m1.user_table_wf(root),
        m1.user_table_distinct(root),
        m2.tables@ == m1.tables@,
        m2.base == m1.base,
        m2.page_count() == m1.page_count(),
        forall|f: int|
            #[trigger] m1.tree_member(root, f) ==> m2.descriptors@[f] == m1.descriptors@[f],
    ensures
        m2.user_table_wf(root),
        m2.user_table_distinct(root),
        forall|f: int| #[trigger] m2.tree_member(root, f) <==> m1.tree_member(root, f),
{
    assert forall|fi: int, ei: int|
        0 <= fi < m2.page_count() && 0 <= ei < 512 implies #[trigger] m2.entry_at(fi, ei)
        == m1.entry_at(fi, ei) by {
        assert(m2.tables@[fi] == m1.tables@[fi]);
    }
    assert forall|e2: int|
        0 <= e2 < 512 implies m2.l2_entry_ok(root, #[trigger] m2.entry_at(root, e2)) by {
        assert(m1.l2_entry_ok(root, m1.entry_at(root, e2)));
        let v = m2.entry_at(root, e2);
        if entry_valid(v) {
            let c = m2.child_of(v);
            assert(m1.tree_member(root, c)) by {
                assert(m1.is_branch(root, e2) && m1.child_idx(root, e2) == c);
            }
            assert(m2.descriptors@[c] == m1.descriptors@[c]);
            assert forall|e1: int|
                0 <= e1 < 512 implies m2.l1_entry_ok(root, c, #[trigger] m2.entry_at(c, e1)) by {
                assert(m1.l1_entry_ok(root, c, m1.entry_at(c, e1)));
                let w = m2.entry_at(c, e1);
                if entry_valid(w) {
                    let g = m2.child_of(w);
                    assert(m1.tree_member(root, g)) by {
                        assert(m1.is_branch(root, e2) && m1.is_branch(c, e1) && m1.child_idx(
                            c,
                            e1,
                        ) == g);
                    }
                    assert(m2.descriptors@[g] == m1.descriptors@[g]);
                    assert forall|e2b: int|
                        0 <= e2b < 512 implies (entry_valid(
                        #[trigger] m2.entry_at(root, e2b),
                    ) ==> g != m2.child_of(m2.entry_at(root, e2b))) by {
                        assert(m2.entry_at(root, e2b) == m1.entry_at(root, e2b));
                    }
                }
            }
        }
    }
    assert forall|f: int| #[trigger] m2.tree_member(root, f) <==> m1.tree_member(
        root,
        f,
    ) by {
        if m2.tree_member(root, f) {
            let e2 = choose|e2: int|
                0 <= e2 < 512 && #[trigger] m2.is_branch(root, e2) && (m2.child_idx(root, e2)
                    == f || exists|e1: int|
                    0 <= e1 < 512 && #[trigger] m2.is_branch(m2.child_idx(root, e2), e1)
                        && m2.child_idx(m2.child_idx(root, e2), e1) == f);
            assert(m1.is_branch(root, e2));
            if m2.child_idx(root, e2) == f {
                assert(m1.child_idx(root, e2) == f);
            } else {
                let c = m2.child_idx(root, e2);
                let e1 = choose|e1: int|
                    0 <= e1 < 512 && #[trigger] m2.is_branch(c, e1) && m2.child_idx(c, e1) == f;
                assert(m1.is_branch(root, e2) && m1.is_branch(m1.child_idx(root, e2), e1)
                    && m1.child_idx(m1.child_idx(root, e2), e1) == f);
            }
        }
        if m1.tree_member(root, f) {
            let e2 = choose|e2: int|
                0 <= e2 < 512 && #[trigger] m1.is_branch(root, e2) && (m1.child_idx(root, e2)
                    == f || exists|e1: int|
                    0 <= e1 < 512 && #[trigger] m1.is_branch(m1.child_idx(root, e2), e1)
                        && m1.child_idx(m1.child_idx(root, e2), e1) == f);
            assert(m2.is_branch(root, e2));
            if m1.child_idx(root, e2) == f {
                assert(m2.child_idx(root, e2) == f);
            } else {
                let c = m1.child_idx(root, e2);
                let e1 = choose|e1: int|
                    0 <= e1 < 512 && #[trigger] m1.is_branch(c, e1) && m1.child_idx(c, e1) == f;
                assert(m2.is_branch(root, e2) && m2.is_branch(m2.child_idx(root, e2), e1)
                    && m2.child_idx(m2.child_idx(root, e2), e1) == f);
            }
        }
    }
    assert forall|ea: int, eb: int|
        0 <= ea < 512 && 0 <= eb < 512 && ea != eb && m2.is_branch(root, ea) && m2.is_branch(
            root,
            eb,
        ) implies #[trigger] m2.child_idx(root, ea) != #[trigger] m2.child_idx(root, eb) by {
        assert(m1.is_branch(root, ea) && m1.is_branch(root, eb));
        assert(m1.child_idx(root, ea) != m1.child_idx(root, eb));
    }
    assert forall|ea: int, fa: int, eb: int, fb: int|
        0 <= ea < 512 && 0 <= fa < 512 && 0 <= eb < 512 && 0 <= fb < 512 && (ea != eb || fa != fb)
            && m2.is_branch(root, ea) && m2.is_branch(root, eb) && m2.is_branch(
            m2.child_idx(root, ea),
            fa,
        ) && m2.is_branch(m2.child_idx(root, eb), fb) implies #[trigger] m2.child_idx(
        m2.child_idx(root, ea),
        fa,
    ) != #[trigger] m2.child_idx(m2.child_idx(root, eb), fb) by {
        assert(m1.is_branch(root, ea) && m1.is_branch(root, eb));
        assert(m1.is_branch(m1.child_idx(root, ea), fa) && m1.is_branch(
            m1.child_idx(root, eb),
            fb,
        ));
        assert(m1.child_idx(m1.child_idx(root, ea), fa) != m1.child_idx(
            m1.child_idx(root, eb),
            fb,
        ));
    }
}

/// Two Sv39 addresses with the same page-number pieces lie on one page:
/// recombining either page base with the other's offset gives it back.
pub proof fn lemma_same_page_recombines(a: u64, b: u64)
    requires
        a < 0x80_0000_0000,
        b < 0x80_0000_0000,
        vpn_of(a, 2) == vpn_of(b, 2),
        vpn_of(a, 1) == vpn_of(b, 1),
        vpn_of(a, 0) == vpn_of(b, 0),
    ensures
        (a & (!0xfffu64)) | (b & 0xfffu64) == b,
{
    assert(((a >> 30) & 0x1ff == (b >> 30) & 0x1ff && (a >> 21) & 0x1ff == (b >> 21) & 0x1ff && (a
        >> 12) & 0x1ff == (b >> 12) & 0x1ff && a < 0x80_0000_0000 && b < 0x80_0000_0000) ==> ((a
        & (!0xfffu64)) | (b & 0xfffu64)) == b) by (bit_vector);
}

/// A table whose walked path for `va` ends in the identity leaf written by
/// `map` translates every address of that page to itself.
proof fn lemma_mapped_page_translates(s: Memory, rg: int, va: u64, flags: u64, va2: u64)
    requires
        s.is_branch(rg, vpn_of(va, 2) as int),
        s.is_branch(s.child_idx(rg, vpn_of(va, 2) as int), vpn_of(va, 1) as int),
        s.entry_at(
            s.child_idx(s.child_idx(rg, vpn_of(va, 2) as int), vpn_of(va, 1) as int),
            vpn_of(va, 0) as int,
        ) == leaf_entry_value(va, flags),
        flags < 1024,
        flags & 2 == 2,
        va < 0x80_0000_0000,
        va2 < 0x80_0000_0000,
        vpn_of(va2, 2) == vpn_of(va, 2),
        vpn_of(va2, 1) == vpn_of(va, 1),
        vpn_of(va2, 0) == vpn_of(va, 0),
    ensures
        s.spec_translate(rg, va2) == Option::Some(va2),
{
    lemma_vpn_bounds(va);
    lemma_leaf_entry(va, flags);
    lemma_same_page_recombines(va, va2);
    let e2 = s.entry_at(rg, vpn_of(va2, 2) as int);
    assert(entry_valid(e2) && !entry_leaf(e2));
    let e1 = s.entry_at(s.child_of(e2), vpn_of(va2, 1) as int);
    assert(entry_valid(e1) && !entry_leaf(e1));
    let e0 = s.entry_at(s.child_of(e1), vpn_of(va2, 0) as int);
    assert(e0 == leaf_entry_value(va, flags));
    assert(entry_valid(e0) && entry_readable(e0) && entry_leaf(e0));
    assert(s.spec_translate(rg, va2) == Option::Some(translate_combine(e0, va2, 0)));
    assert(translate_combine(e0, va2, 0) == ((va & (!0xfffu64)) | (va2 & 0xfffu64)));
}

/// Identity translations established for a range survive a later
/// identity-preserving table change.
#[verifier::spinoff_prover]
pub proof fn lemma_identity_step(m_pre: Memory, m_post: Memory, rg: int, lo: u64, hi: u64)
    requires
        hi <= 0x80_0000_0000,
        forall|va2: u64|
            (va2 < 0x80_0000_0000 && m_pre.spec_translate(rg, va2) == Option::Some(va2))
                ==> #[trigger] m_post.spec_translate(rg, va2) == Option::Some(va2),
        forall|va2: u64|
            (lo <= va2 < hi && (va2 - lo) % 4096 == 0) ==> #[trigger] m_pre.spec_translate(
                rg,
                va2,
            ) == Option::Some(va2),
    ensures
        forall|va2: u64|
            (lo <= va2 < hi && (va2 - lo) % 4096 == 0) ==> #[trigger] m_post.spec_translate(
                rg,
                va2,
            ) == Option::Some(va2),
{
    assert forall|va2: u64|
        (lo <= va2 < hi && (va2 - lo) % 4096 == 0) implies #[trigger] m_post.spec_translate(
        rg,
        va2,
    ) == Option::Some(va2) by {
        assert(m_pre.spec_translate(rg, va2) == Option::Some(va2));
    }
}

pub proof fn lemma_pages_in_nonneg(start: u64, end: u64)
    ensures
        pages_in(start, end) >= 0,
        start < end ==> pages_in(start, end) >= 1,
    decreases end - start,
{
    if start < end && end - start > 4096 {
        lemma_pages_in_nonneg((start + 4096) as u64, end);
    }
}

impl Memory {
    /// Identity-map every page of `[start, end)` into the user table at
    /// `root`, with the given leaf flags, allocating intermediate tables
    /// as the walk needs them.
    pub fn map_range(&mut self, root: u64, start: u64, end: u64, flags: u64)
        requires
            old(self).wf(),
            root >= old(self).base,
            (root - old(self).base) % 4096 == 0,
            old(self).spec_page_index(root) < old(self).page_count(),
            old(self).descriptors@[old(self).spec_page_index(root)].flags == 3,
            old(self).user_table_wf(old(self).spec_page_index(root)),
            old(self).user_table_distinct(old(self).spec_page_index(root)),
            flags & 0xe != 0,
            flags & 2 == 2,
            flags & 6 != 0,
            flags < 1024,
            start <= end,
            end <= 0x80_0000_0000,
            can_alloc(old(self).descriptors@, 2 * pages_in(start, end)) || pages_in(start, end)
                == 0,
        ensures
            final(self).wf(),
            final(self).base == old(self).base,
            final(self).page_count() == old(self).page_count(),
            final(self).user_table_wf(old(self).spec_page_index(root)),
            final(self).user_table_distinct(old(self).spec_page_index(root)),
            forall|j: int|
                0 <= j < old(self).page_count() && desc_taken(
                    #[trigger] old(self).descriptors@[j].flags,
                ) ==> final(self).descriptors@[j] == old(self).descriptors@[j],
            forall|m: int|
                #[trigger] can_alloc(old(self).descriptors@, m) && m > 2 * pages_in(start, end)
                    ==> can_alloc(final(self).descriptors@, m - 2 * pages_in(start, end)),
            forall|f: int|
                (#[trigger] final(self).tree_member(old(self).spec_page_index(root), f)
                    && desc_taken(old(self).descriptors@[f].flags)) ==> old(self).tree_member(
                    old(self).spec_page_index(root),
                    f,
                ),
            forall|va2: u64|
                (start <= va2 < end && (va2 - start) % 4096 == 0)
                    ==> #[trigger] final(self).spec_translate(
                    old(self).spec_page_index(root),
                    va2,
                ) == Option::Some(va2),
            forall|va2: u64|
                (va2 < 0x80_0000_0000 && old(self).spec_translate(
                    old(self).spec_page_index(root),
                    va2,
                ) == Option::Some(va2)) ==> #[trigger] final(self).spec_translate(
                    old(self).spec_page_index(root),
                    va2,
                ) == Option::Some(va2),
    {
        let ghost root_gi = old(self).spec_page_index(root);
        let ghost old_d = old(self).descriptors@;
        let ghost total = pages_in(start, end);
        let mut va = start;
        let ghost mut k: int = 0;
        while va < end
            invariant
                self.wf(),
                self.base == old(self).base,
                self.page_count() == old(self).page_count(),
                root_gi == old(self).spec_page_index(root),
                root_gi == self.spec_page_index(root),
                root >= self.base,
                (root - self.base) % 4096 == 0,
                root_gi < self.page_count(),
                self.descriptors@[root_gi].flags == 3,
                self.user_table_wf(root_gi),
                self.user_table_distinct(root_gi),
                flags & 0xe != 0,
                flags & 2 == 2,
                flags & 6 != 0,
                flags < 1024,
                start <= va,
                (va - start) % 4096 == 0,
                forall|va2: u64|
                    (start <= va2 < va && (va2 - start) % 4096 == 0)
                        ==> #[trigger] self.spec_translate(root_gi, va2) == Option::Some(va2),
                forall|va2: u64|
                    (va2 < 0x80_0000_0000 && old(self).spec_translate(root_gi, va2)
                        == Option::Some(va2)) ==> #[trigger] self.spec_translate(root_gi, va2)
                        == Option::Some(va2),
                end <= 0x80_0000_0000,
                old_d == old(self).descriptors@,
                total == pages_in(start, end),
                k + pages_in(va, end) == total,
                0 <= k,
                can_alloc(old_d, 2 * total) || total == 0,
                forall|j: int|
                    0 <= j < self.page_count() && desc_taken(#[trigger] old_d[j].flags)
                        ==> self.descriptors@[j] == old_d[j],
                forall|m: int|
                    #[trigger] can_alloc(old_d, m) && m > 2 * k ==> can_alloc(
                        self.descriptors@,
                        m - 2 * k,
                    ),
                forall|f: int|
                    (#[trigger] self.tree_member(root_gi, f) && desc_taken(old_d[f].flags))
                        ==> old(self).tree_member(root_gi, f),
            decreases pages_in(va, end),
        {
            let ghost pre = *self;
            proof {
                pre.lemma_user_table_path_ok(root_gi, va);
                lemma_pages_in_nonneg(va, end);
                lemma_pages_in_nonneg((va + 4096) as u64, end);
                assert(pages_in(va, end) >= 1);
                assert(pages_in(va, end) == 1 + pages_in((va + 4096) as u64, end));
                assert(k < total);
                let miss = pre.spec_missing_branches(root_gi, va, 0);
                if miss > 0 {
                    assert(can_alloc(old_d, 2 * total));
                    assert(can_alloc(pre.descriptors@, 2 * total - 2 * k));
                    lemma_can_alloc_mono(pre.descriptors@, 2 * total - 2 * k, miss);
                }
            }
            self.map(root, va, va, flags, 0);
            proof {
                let miss = pre.spec_missing_branches(root_gi, va, 0);
                assert(self.descriptors@[root_gi] == pre.descriptors@[root_gi]) by {
                    assert(desc_taken(3u8)) by (bit_vector);
                }
                assert forall|j: int|
                    0 <= j < self.page_count() && desc_taken(#[trigger] old_d[j].flags)
                        implies self.descriptors@[j] == old_d[j] by {
                    assert(pre.descriptors@[j] == old_d[j]);
                    assert(desc_taken(pre.descriptors@[j].flags));
                }
                assert forall|f: int|
                    (#[trigger] self.tree_member(root_gi, f) && desc_taken(
                        old_d[f].flags,
                    )) implies old(self).tree_member(root_gi, f) by {
                    assert(pre.descriptors@[f] == old_d[f]);
                    assert(desc_taken(pre.descriptors@[f].flags));
                    assert(pre.tree_member(root_gi, f));
                }
                let s_now = *self;
                assert(s_now.spec_translate(root_gi, va) == Option::Some(va)) by {
                    assert(s_now.spec_translate(root_gi, va) == Option::Some(
                        ((va & (!level_offset_mask(0))) | (va & level_offset_mask(0))),
                    ));
                    lemma_vpn_bounds(va);
                    lemma_same_page_recombines(va, va);
                }
                assert forall|va2: u64|
                    (start <= va2 < va + 4096 && (va2 - start) % 4096 == 0)
                        implies #[trigger] s_now.spec_translate(root_gi, va2) == Option::Some(
                    va2,
                ) by {
                    if va2 < va {
                        assert(pre.spec_translate(root_gi, va2) == Option::Some(va2));
                        if vpn_of(va2, 2) != vpn_of(va, 2) || vpn_of(va2, 1) != vpn_of(va, 1)
                            || vpn_of(va2, 0) != vpn_of(va, 0) {
                            assert(s_now.spec_translate(root_gi, va2) == pre.spec_translate(
                                root_gi,
                                va2,
                            ));
                        } else {
                            lemma_mapped_page_translates(s_now, root_gi, va, flags, va2);
                        }
                    } else {
                        assert(va2 == va) by {
                            assert((va2 - start) % 4096 == 0 && (va - start) % 4096 == 0);
                        }
                    }
                }
                assert forall|va2: u64|
                    (va2 < 0x80_0000_0000 && old(self).spec_translate(root_gi, va2)
                        == Option::Some(va2)) implies #[trigger] s_now.spec_translate(
                    root_gi,
                    va2,
                ) == Option::Some(va2) by {
                    assert(pre.spec_translate(root_gi, va2) == Option::Some(va2));
                    if vpn_of(va2, 2) != vpn_of(va, 2) || vpn_of(va2, 1) != vpn_of(va, 1)
                        || vpn_of(va2, 0) != vpn_of(va, 0) {
                        assert(s_now.spec_translate(root_gi, va2) == pre.spec_translate(
                            root_gi,
                            va2,
                        ));
                    } else {
                        lemma_mapped_page_translates(s_now, root_gi, va, flags, va2);
                    }
                }
                assert forall|m: int|
                    #[trigger] can_alloc(old_d, m) && m > 2 * (k + 1) implies can_alloc(
                    self.descriptors@,
                    m - 2 * (k + 1),
                ) by {
                    assert(can_alloc(pre.descriptors@, m - 2 * k));
                    assert(m - 2 * k > miss);
                    assert(can_alloc(self.descriptors@, m - 2 * k - miss));
                    if m - 2 * k - miss > m - 2 * (k + 1) {
                        lemma_can_alloc_mono(
                            self.descriptors@,
                            m - 2 * k - miss,
                            m - 2 * (k + 1),
                        );
                    }
                }
                k = k + 1;
            }
            va = va + 4096;
        }
        proof {
            assert(pages_in(va, end) == 0);
            assert(k == total);
        }
    }
}

/// A free window of `m` pages contains one of any smaller positive size.
pub proof fn lemma_can_alloc_shrink(d: Seq<PageDescriptor>)
    ensures
        forall|m: int| #[trigger] can_alloc(d, m) && m > 1 ==> can_alloc(d, m - 1),
{
    assert forall|m: int| #[trigger] can_alloc(d, m) && m > 1 implies can_alloc(d, m - 1) by {
        let w = choose|w: int| 0 <= w <= d.len() - m && window_free(d, w, m);
        assert(window_free(d, w, m - 1));
        assert(0 <= w <= d.len() - (m - 1));
    }
}

/// A free window of `m` pages contains one of any positive size `k <= m`.
pub proof fn lemma_can_alloc_mono(d: Seq<PageDescriptor>, m: int, k: int)
    requires
        can_alloc(d, m),
        1 <= k <= m,
    ensures
        can_alloc(d, k),
{
    let w = choose|w: int| 0 <= w <= d.len() - m && window_free(d, w, m);
    assert(window_free(d, w, k));
    assert(0 <= w <= d.len() - k);
}

/// Nothing about the branch entries changes when only descriptors move.
pub proof fn lemma_branches_ok_unchanged(m1: Memory, m2: Memory)
    requires
        m1.branches_ok(),
        m2.tables@ == m1.tables@,
        m2.base == m1.base,
        m2.page_count() == m1.page_count(),
    ensures
        m2.branches_ok(),
{
    assert forall|fi: int, ei: int|
        0 <= fi < m2.page_count() && 0 <= ei < 512 implies m2.branch_ok(
        #[trigger] m2.entry_at(fi, ei),
    ) by {
        assert(m2.entry_at(fi, ei) == m1.entry_at(fi, ei));
        assert(m1.branch_ok(m1.entry_at(fi, ei)));
    }
}

/// A zeroed entry is invalid and no leaf.
pub proof fn lemma_zero_entry()
    ensures
        !entry_valid(0u64),
        !entry_leaf(0u64),
        !entry_readable(0u64),
        !entry_writable(0u64),
{
    assert(!(0u64 & 1 == 1) && !(0u64 & 2 == 2) && !(0u64 & 4 == 4)) by (bit_vector);
}

/// First-fit keeps room: if the descriptors held a free window of `m` pages
/// and the scan stamped a run of `n <= m` at its first fit, a free window of
/// `m - n` pages remains.
pub proof fn lemma_window_after_stamp(d: Seq<PageDescriptor>, i: int, n: int, m: int)
    requires
        1 <= n <= m,
        0 <= i <= d.len() - n,
        window_free(d, i, n),
        forall|i2: int| 0 <= i2 < i ==> !window_free(d, i2, n),
        can_alloc(d, m),
    ensures
        n == m || can_alloc(stamp_run(d, i, n), m - n),
{
    if n < m {
        let s = stamp_run(d, i, n);
        let w = choose|w: int| 0 <= w <= d.len() - m && window_free(d, w, m);
        assert(window_free(d, w, n));
        assert(i <= w);
        if i + n <= w {
            assert(window_free(s, w, m - n)) by {
                assert(forall|j: int| w <= j < w + (m - n) ==> #[trigger] s[j] == d[j]);
            }
            assert(0 <= w <= s.len() - (m - n));
        } else {
            let w2 = i + n;
            assert(window_free(s, w2, m - n)) by {
                assert(forall|j: int|
                    w2 <= j < w2 + (m - n) ==> #[trigger] s[j] == d[j] && w <= j < w + m);
            }
            assert(0 <= w2 <= s.len() - (m - n));
        }
    }
}

/// Law: `alloc(n)` followed by `dealloc` on the returned pointer restores
/// the descriptor array to its previous state bitwise. The stamped run is a
/// well-formed allocation run ending where the allocation ended, and
/// clearing it gives back exactly the old bytes.
pub proof fn lemma_alloc_dealloc_restores(d: Seq<PageDescriptor>, i: int, n: int)
    requires
        descs_wf(d),
        0 <= i,
        1 <= n,
        i + n <= d.len(),
        window_free(d, i, n),
    ensures
        is_alloc_run(stamp_run(d, i, n), i, i + n - 1),
        spec_run_end(stamp_run(d, i, n), i) == i + n - 1,
        clear_run(stamp_run(d, i, n), i, i + n - 1) == d,
{
    let s = stamp_run(d, i, n);
    assert(desc_taken(1u8) && desc_taken(3u8)) by (bit_vector);
    assert(is_alloc_run(s, i, i + n - 1));
    lemma_run_end_unique(s, i, spec_run_end(s, i), i + n - 1);
    assert forall|j: int| i <= j < i + n implies d[j].flags == 0 by {
        assert(!desc_taken(d[j].flags));
        assert(desc_taken(1u8) && desc_taken(3u8)) by (bit_vector);
    }
    assert(clear_run(s, i, i + n - 1) =~= d);
}

} // verus!
