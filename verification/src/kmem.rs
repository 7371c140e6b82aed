//! Sub-page kernel heap: a first-fit malloc carved out of one page-allocator
//! arena. The arena is a chain of `(flags, size)` headers; each header's
//! size spans its payload plus the header itself, and the top bit records
//! Taken. The chain is modeled as the sequence of headers, with each
//! header's byte offset given by the sizes before it.

use vstd::prelude::*;

use crate::page::align_address;
use crate::page::lemma_align_address_properties;
use crate::page::spec_align_address;

verus! {

/// The number of pages the boot path hands the heap.
pub const KMEM_ALLOC: u64 = 2048;

/// The header's Taken bit sits at the top of the size word.
#[derive(Clone, Copy, PartialEq, Eq, Structural)]
pub enum KernelPageDescriptorFlags {
    Taken,
}

impl KernelPageDescriptorFlags {
    pub open spec fn spec_value(self) -> u64 {
        0x8000_0000_0000_0000
    }

    pub fn value(self) -> (v: u64)
        ensures
            v == self.spec_value(),
    {
        0x8000_0000_0000_0000
    }
}

pub open spec fn kdesc_taken(flags_size: u64) -> bool {
    flags_size & 0x8000_0000_0000_0000 == 0x8000_0000_0000_0000
}

pub open spec fn kdesc_size(flags_size: u64) -> u64 {
    flags_size & 0x7fff_ffff_ffff_ffff
}

/// One `(flags, size)` heap header.
#[derive(Clone, Copy, PartialEq, Eq, Structural)]
pub struct KernelPageDescriptor {
    pub flags_size: u64,
}

/// A free header of the given size.
pub open spec fn kfree_block(size: u64) -> KernelPageDescriptor {
    KernelPageDescriptor { flags_size: size & 0x7fff_ffff_ffff_ffff }
}

/// A taken header of the given size.
pub open spec fn ktaken_block(size: u64) -> KernelPageDescriptor {
    KernelPageDescriptor { flags_size: (size & 0x7fff_ffff_ffff_ffff) | 0x8000_0000_0000_0000 }
}

impl KernelPageDescriptor {
    pub fn new(size: u64) -> (d: KernelPageDescriptor)
        ensures
            d == kfree_block(size),
    {
        KernelPageDescriptor { flags_size: size & 0x7fff_ffff_ffff_ffffu64 }
    }

    pub fn is_taken(&self) -> (r: bool)
        ensures
            r == kdesc_taken(self.flags_size),
    {
        self.flags_size & 0x8000_0000_0000_0000 == 0x8000_0000_0000_0000
    }

    pub fn set_taken(&mut self)
        ensures
            final(self).flags_size == old(self).flags_size | 0x8000_0000_0000_0000,
            kdesc_taken(final(self).flags_size),
            kdesc_size(final(self).flags_size) == kdesc_size(old(self).flags_size),
    {
        let ghost pre = self.flags_size;
        self.flags_size = self.flags_size | 0x8000_0000_0000_0000;
        proof {
            assert(kdesc_taken(pre | 0x8000_0000_0000_0000) && kdesc_size(
                pre | 0x8000_0000_0000_0000,
            ) == kdesc_size(pre)) by (bit_vector);
        }
    }

    pub fn set_free(&mut self)
        ensures
            final(self).flags_size == old(self).flags_size & 0x7fff_ffff_ffff_ffffu64,
            !kdesc_taken(final(self).flags_size),
            kdesc_size(final(self).flags_size) == kdesc_size(old(self).flags_size),
    {
        let ghost pre = self.flags_size;
        self.flags_size = self.flags_size & 0x7fff_ffff_ffff_ffffu64;
        proof {
            assert(!kdesc_taken(pre & 0x7fff_ffff_ffff_ffffu64) && kdesc_size(
                pre & 0x7fff_ffff_ffff_ffffu64,
            ) == kdesc_size(pre)) by (bit_vector);
        }
    }

    pub fn set_size(&mut self, size: u64)
        requires
            size < 0x8000_0000_0000_0000,
        ensures
            kdesc_size(final(self).flags_size) == size,
            kdesc_taken(final(self).flags_size) == kdesc_taken(old(self).flags_size),
            kdesc_taken(old(self).flags_size) ==> *final(self) == ktaken_block(size),
            !kdesc_taken(old(self).flags_size) ==> *final(self) == kfree_block(size),
    {
        let is_taken = self.is_taken();
        self.flags_size = size & 0x7fff_ffff_ffff_ffffu64;
        if is_taken {
            self.flags_size = self.flags_size | 0x8000_0000_0000_0000;
        }
        proof {
            assert(size < 0x8000_0000_0000_0000 ==> kdesc_size(
                size & 0x7fff_ffff_ffff_ffffu64,
            ) == size && !kdesc_taken(size & 0x7fff_ffff_ffff_ffffu64) && kdesc_size(
                (size & 0x7fff_ffff_ffff_ffffu64) | 0x8000_0000_0000_0000,
            ) == size && kdesc_taken(
                (size & 0x7fff_ffff_ffff_ffffu64) | 0x8000_0000_0000_0000,
            ) && size & 0x7fff_ffff_ffff_ffffu64 == size & 0x7fff_ffff_ffff_ffff && ((size
                & 0x7fff_ffff_ffff_ffffu64) | 0x8000_0000_0000_0000) == (size
                & 0x7fff_ffff_ffff_ffff) | 0x8000_0000_0000_0000) by (bit_vector);
        }
    }

    pub fn get_size(&self) -> (r: u64)
        ensures
            r == kdesc_size(self.flags_size),
    {
        self.flags_size & 0x7fff_ffff_ffff_ffffu64
    }
}

/// The sizes of all headers in the chain, added up.
pub open spec fn sum_sizes(s: Seq<KernelPageDescriptor>) -> int
    decreases s.len(),
{
    if s.len() == 0 {
        0
    } else {
        kdesc_size(s[0].flags_size) + sum_sizes(s.drop_first())
    }
}

pub proof fn lemma_sum_nonneg(s: Seq<KernelPageDescriptor>)
    ensures
        sum_sizes(s) >= 0,
    decreases s.len(),
{
    if s.len() > 0 {
        lemma_sum_nonneg(s.drop_first());
    }
}

pub proof fn lemma_sum_concat(a: Seq<KernelPageDescriptor>, b: Seq<KernelPageDescriptor>)
    ensures
        sum_sizes(a + b) == sum_sizes(a) + sum_sizes(b),
    decreases a.len(),
{
    if a.len() == 0 {
        assert(a + b =~= b);
    } else {
        assert((a + b).drop_first() =~= a.drop_first() + b);
        lemma_sum_concat(a.drop_first(), b);
    }
}

pub proof fn lemma_sum_split(s: Seq<KernelPageDescriptor>, k: int)
    requires
        0 <= k <= s.len(),
    ensures
        sum_sizes(s) == sum_sizes(s.take(k)) + sum_sizes(s.skip(k)),
{
    assert(s =~= s.take(k) + s.skip(k));
    lemma_sum_concat(s.take(k), s.skip(k));
}

/// The offset of header `i` is the sum of the sizes before it.
pub proof fn lemma_koffset_is_sum_take(s: Seq<KernelPageDescriptor>, i: int)
    requires
        0 <= i <= s.len(),
    ensures
        koffset_of(s, i) == sum_sizes(s.take(i)),
    decreases i,
{
    if i == 0 {
        assert(s.take(0) =~= Seq::<KernelPageDescriptor>::empty());
    } else {
        lemma_koffset_is_sum_take(s, i - 1);
        lemma_sum_split(s.take(i), i - 1);
        assert(s.take(i).take(i - 1) =~= s.take(i - 1));
        assert(s.take(i).skip(i - 1) =~= seq![s[i - 1]]);
        lemma_sum_singleton(s[i - 1]);
    }
}

pub proof fn lemma_sum_singleton(b: KernelPageDescriptor)
    ensures
        sum_sizes(seq![b]) == kdesc_size(b.flags_size),
{
    assert(seq![b].drop_first() =~= Seq::<KernelPageDescriptor>::empty());
    assert(sum_sizes(Seq::<KernelPageDescriptor>::empty()) == 0);
}

/// Offsets grow by at least a header per block.
pub proof fn lemma_koffset_strict_mono(s: Seq<KernelPageDescriptor>, i: int, j: int)
    requires
        0 <= i < j <= s.len(),
        forall|k: int| 0 <= k < s.len() ==> kdesc_size(#[trigger] s[k].flags_size) >= 8,
    ensures
        koffset_of(s, i) + 8 <= koffset_of(s, j),
    decreases j - i,
{
    if j == i + 1 {
    } else {
        lemma_koffset_strict_mono(s, i, j - 1);
    }
}

/// The byte offset of header `i`: the sizes of everything before it.
pub open spec fn koffset_of(s: Seq<KernelPageDescriptor>, i: int) -> int
    decreases i,
{
    if i <= 0 {
        0
    } else {
        koffset_of(s, i - 1) + kdesc_size(s[i - 1].flags_size)
    }
}

/// One coalescing pass, as the forward scan performs it: a pair of adjacent
/// free blocks merges, and the scan continues after the merged block.
pub open spec fn kcoalesce(s: Seq<KernelPageDescriptor>) -> Seq<KernelPageDescriptor>
    decreases s.len(),
{
    if s.len() < 2 {
        s
    } else if !kdesc_taken(s[0].flags_size) && !kdesc_taken(s[1].flags_size) {
        seq![
            kfree_block((kdesc_size(s[0].flags_size) + kdesc_size(s[1].flags_size)) as u64),
        ] + kcoalesce(s.skip(2))
    } else {
        seq![s[0]] + kcoalesce(s.skip(1))
    }
}

/// What a successful `kmalloc` of a padded size `sz` does at block `i`:
/// split when more than a header remains, else take the whole block.
pub open spec fn ksplit(s: Seq<KernelPageDescriptor>, i: int, sz: u64) -> Seq<
    KernelPageDescriptor,
> {
    let rem = kdesc_size(s[i].flags_size) - sz;
    if rem > 8 {
        s.update(i, ktaken_block(sz)).insert(i + 1, kfree_block(rem as u64))
    } else {
        s.update(i, ktaken_block(kdesc_size(s[i].flags_size)))
    }
}

/// The sub-page allocator: the header chain of one arena.
pub struct KernelHeap {
    pub blocks: Vec<KernelPageDescriptor>,
    pub arena_size: u64,
}

impl KernelHeap {
    pub open spec fn wf(&self) -> bool {
        &&& self.arena_size < 0x4000_0000_0000_0000
        &&& sum_sizes(self.blocks@) == self.arena_size
        &&& forall|i: int|
            0 <= i < self.blocks@.len() ==> kdesc_size(#[trigger] self.blocks@[i].flags_size) >= 8
                && kdesc_size(self.blocks@[i].flags_size) % 8 == 0
    }

    /// The pristine heap: one free block spanning the whole arena.
    pub open spec fn pristine(&self) -> bool {
        self.blocks@ =~= seq![kfree_block(self.arena_size)]
    }

    /// Set up the heap over an arena of `arena_size` bytes (the boot path
    /// hands it `KMEM_ALLOC` zeroed pages): one free header spanning it all.
    pub fn init(arena_size: u64) -> (h: KernelHeap)
        requires
            8 <= arena_size < 0x4000_0000_0000_0000,
            arena_size % 8 == 0,
        ensures
            h.wf(),
            h.arena_size == arena_size,
            h.pristine(),
    {
        let mut blocks: Vec<KernelPageDescriptor> = Vec::new();
        blocks.push(KernelPageDescriptor::new(arena_size));
        let h = KernelHeap { blocks, arena_size };
        proof {
            assert(arena_size < 0x8000_0000_0000_0000 ==> kdesc_size(
                arena_size & 0x7fff_ffff_ffff_ffff,
            ) == arena_size && arena_size & 0x7fff_ffff_ffff_ffff == arena_size) by (bit_vector);
            assert(h.blocks@ =~= seq![kfree_block(arena_size)]);
            assert(h.blocks@.drop_first() =~= Seq::<KernelPageDescriptor>::empty());
            assert(sum_sizes(h.blocks@.drop_first()) == 0);
            assert(h.blocks@[0] == kfree_block(arena_size));
        }
        h
    }
}

/// The first block, scanning forward from `i`, that is free and large
/// enough for `sz` bytes.
pub open spec fn kfirst_fit_from(s: Seq<KernelPageDescriptor>, sz: u64, i: int) -> Option<int>
    decreases s.len() - i,
{
    if i < 0 || i >= s.len() {
        Option::None
    } else if !kdesc_taken(s[i].flags_size) && sz <= kdesc_size(s[i].flags_size) {
        Option::Some(i)
    } else {
        kfirst_fit_from(s, sz, i + 1)
    }
}

pub open spec fn kfirst_fit(s: Seq<KernelPageDescriptor>, sz: u64) -> Option<int> {
    kfirst_fit_from(s, sz, 0)
}

/// The request padded as `kmalloc` pads it: 8-byte alignment plus a header.
pub open spec fn kpadded(size: u64) -> int {
    spec_align_address(size, 3) + 8
}

pub proof fn lemma_sum_update(s: Seq<KernelPageDescriptor>, i: int, b: KernelPageDescriptor)
    requires
        0 <= i < s.len(),
    ensures
        sum_sizes(s.update(i, b)) == sum_sizes(s) - kdesc_size(s[i].flags_size) + kdesc_size(
            b.flags_size,
        ),
{
    let u = s.update(i, b);
    assert(u =~= s.take(i) + seq![b] + s.skip(i + 1));
    assert(s =~= s.take(i) + seq![s[i]] + s.skip(i + 1));
    lemma_sum_concat(s.take(i) + seq![b], s.skip(i + 1));
    lemma_sum_concat(s.take(i), seq![b]);
    lemma_sum_concat(s.take(i) + seq![s[i]], s.skip(i + 1));
    lemma_sum_concat(s.take(i), seq![s[i]]);
    lemma_sum_singleton(b);
    lemma_sum_singleton(s[i]);
}

pub proof fn lemma_sum_insert(s: Seq<KernelPageDescriptor>, i: int, b: KernelPageDescriptor)
    requires
        0 <= i <= s.len(),
    ensures
        sum_sizes(s.insert(i, b)) == sum_sizes(s) + kdesc_size(b.flags_size),
{
    let u = s.insert(i, b);
    assert(u =~= s.take(i) + seq![b] + s.skip(i));
    assert(s =~= s.take(i) + s.skip(i));
    lemma_sum_concat(s.take(i) + seq![b], s.skip(i));
    lemma_sum_concat(s.take(i), seq![b]);
    lemma_sum_concat(s.take(i), s.skip(i));
    lemma_sum_singleton(b);
}

/// Sizes below the Taken bit read back unchanged.
pub proof fn lemma_kdesc_size_id(x: u64)
    requires
        x < 0x8000_0000_0000_0000,
    ensures
        kdesc_size(x) == x,
        kdesc_size(kfree_block(x).flags_size) == x,
        !kdesc_taken(kfree_block(x).flags_size),
        kdesc_size(ktaken_block(x).flags_size) == x,
        kdesc_taken(ktaken_block(x).flags_size),
        kfree_block(x).flags_size == x,
{
    assert(x < 0x8000_0000_0000_0000 ==> x & 0x7fff_ffff_ffff_ffff == x && ((x
        & 0x7fff_ffff_ffff_ffff) | 0x8000_0000_0000_0000) & 0x7fff_ffff_ffff_ffff == x && !((x
        & 0x7fff_ffff_ffff_ffff) & 0x8000_0000_0000_0000 == 0x8000_0000_0000_0000) && ((x
        & 0x7fff_ffff_ffff_ffff) | 0x8000_0000_0000_0000) & 0x8000_0000_0000_0000
        == 0x8000_0000_0000_0000) by (bit_vector);
}

/// Every block size stays, and the sum stays, across one coalescing pass.
pub proof fn lemma_kcoalesce_wf(s: Seq<KernelPageDescriptor>)
    requires
        sum_sizes(s) < 0x8000_0000_0000_0000,
        forall|k: int|
            0 <= k < s.len() ==> kdesc_size(#[trigger] s[k].flags_size) >= 8 && kdesc_size(
                s[k].flags_size,
            ) % 8 == 0,
    ensures
        sum_sizes(kcoalesce(s)) == sum_sizes(s),
        forall|k: int|
            0 <= k < kcoalesce(s).len() ==> kdesc_size(#[trigger] kcoalesce(s)[k].flags_size) >= 8
                && kdesc_size(kcoalesce(s)[k].flags_size) % 8 == 0,
    decreases s.len(),
{
    if s.len() < 2 {
    } else {
        let a = kdesc_size(s[0].flags_size);
        let b = kdesc_size(s[1].flags_size);
        assert(s.drop_first().drop_first() =~= s.skip(2));
        assert(s.drop_first() =~= s.skip(1));
        assert(sum_sizes(s) == a + b + sum_sizes(s.skip(2))) by {
            assert(sum_sizes(s) == a + sum_sizes(s.drop_first()));
            assert(s.drop_first()[0] == s[1]);
            assert(sum_sizes(s.drop_first()) == b + sum_sizes(s.drop_first().drop_first()));
            assert(s.drop_first().drop_first() =~= s.skip(2));
        }
        lemma_sum_nonneg(s.skip(2));
        lemma_sum_nonneg(s.skip(1));
        if !kdesc_taken(s[0].flags_size) && !kdesc_taken(s[1].flags_size) {
            let merged = kfree_block((a + b) as u64);
            lemma_kdesc_size_id((a + b) as u64);
            assert forall|k: int|
                0 <= k < s.skip(2).len() implies kdesc_size(
                #[trigger] s.skip(2)[k].flags_size,
            ) >= 8 && kdesc_size(s.skip(2)[k].flags_size) % 8 == 0 by {
                assert(s.skip(2)[k] == s[k + 2]);
            }
            lemma_kcoalesce_wf(s.skip(2));
            lemma_sum_concat(seq![merged], kcoalesce(s.skip(2)));
            lemma_sum_singleton(merged);
            assert forall|k: int|
                0 <= k < kcoalesce(s).len() implies kdesc_size(
                #[trigger] kcoalesce(s)[k].flags_size,
            ) >= 8 && kdesc_size(kcoalesce(s)[k].flags_size) % 8 == 0 by {
                if k > 0 {
                    assert(kcoalesce(s)[k] == kcoalesce(s.skip(2))[k - 1]);
                }
            }
        } else {
            assert forall|k: int|
                0 <= k < s.skip(1).len() implies kdesc_size(
                #[trigger] s.skip(1)[k].flags_size,
            ) >= 8 && kdesc_size(s.skip(1)[k].flags_size) % 8 == 0 by {
                assert(s.skip(1)[k] == s[k + 1]);
            }
            lemma_kcoalesce_wf(s.skip(1));
            lemma_sum_concat(seq![s[0]], kcoalesce(s.skip(1)));
            lemma_sum_singleton(s[0]);
            assert forall|k: int|
                0 <= k < kcoalesce(s).len() implies kdesc_size(
                #[trigger] kcoalesce(s)[k].flags_size,
            ) >= 8 && kdesc_size(kcoalesce(s)[k].flags_size) % 8 == 0 by {
                if k > 0 {
                    assert(kcoalesce(s)[k] == kcoalesce(s.skip(1))[k - 1]);
                }
            }
        }
    }
}

impl KernelHeap {
    /// Allocate `size` bytes: pad to 8-byte alignment plus a header, scan
    /// first-fit, split the found block when more than a bare header would
    /// remain, and return the address right after the header. Nothing fits:
    /// nothing changes.
    pub fn kmalloc(&mut self, size: u64) -> (r: Option<u64>)
        requires
            old(self).wf(),
            size < 0x3fff_ffff_ffff_0000,
        ensures
            final(self).wf(),
            final(self).arena_size == old(self).arena_size,
            r.is_some() == kfirst_fit(old(self).blocks@, kpadded(size) as u64).is_some(),
            r.is_none() ==> final(self).blocks@ == old(self).blocks@,
            r matches Some(addr) ==> ({
                let i = kfirst_fit(old(self).blocks@, kpadded(size) as u64).unwrap();
                &&& addr == koffset_of(old(self).blocks@, i) + 8
                &&& final(self).blocks@ == ksplit(old(self).blocks@, i, kpadded(size) as u64)
            }),
    {
        proof {
            assert((1u64 << 3) - 1 == 7) by (bit_vector);
        }
        let aligned = align_address(size, 3);
        let sz = aligned + 8;
        proof {
            assert(aligned & 7u64 == 0);
            assert(sz % 8 == 0 && sz >= 8) by {
                assert(aligned & 7 == 0 ==> aligned % 8 == 0) by (bit_vector);
            }
        }
        let ghost old_b = self.blocks@;
        let mut i: usize = 0;
        let mut offset: u64 = 0;
        while i < self.blocks.len()
            invariant
                old(self).wf(),
                self.wf(),
                *self == *old(self),
                old_b == self.blocks@,
                sz == kpadded(size),
                sz % 8 == 0,
                sz >= 8,
                0 <= i <= self.blocks@.len(),
                offset == koffset_of(old_b, i as int),
                0 <= offset <= self.arena_size,
                forall|j: int|
                    0 <= j < i ==> (kdesc_taken(#[trigger] old_b[j].flags_size) || sz
                        > kdesc_size(old_b[j].flags_size)),
            decreases self.blocks@.len() - i,
        {
            let b = self.blocks[i];
            if !b.is_taken() && sz <= b.get_size() {
                proof {
                    lemma_kfirst_fit_stops(old_b, sz, i as int);
                    lemma_kdesc_size_bound(b.flags_size);
                }
                let chunk_size = b.get_size();
                let rem = chunk_size - sz;
                let mut nb = b;
                nb.set_taken();
                if rem > 8 {
                    nb.set_size(sz);
                    self.blocks[i] = nb;
                    self.blocks.insert(i + 1, KernelPageDescriptor::new(rem));
                    proof {
                        let ii = i as int;
                        assert(self.blocks@ =~= ksplit(old_b, ii, sz));
                        lemma_sum_update(old_b, ii, ktaken_block(sz));
                        lemma_sum_insert(
                            old_b.update(ii, ktaken_block(sz)),
                            ii + 1,
                            kfree_block(rem),
                        );
                        lemma_kdesc_size_id(sz);
                        lemma_kdesc_size_id(rem);
                    }
                } else {
                    nb.set_size(chunk_size);
                    self.blocks[i] = nb;
                    proof {
                        let ii = i as int;
                        assert(self.blocks@ =~= ksplit(old_b, ii, sz));
                        lemma_sum_update(old_b, ii, ktaken_block(chunk_size));
                        lemma_kdesc_size_id(chunk_size);
                    }
                }
                return Option::Some(offset + 8);
            }
            proof {
                let ii = i as int;
                lemma_koffset_is_sum_take(old_b, ii + 1);
                lemma_sum_split(old_b, ii + 1);
                lemma_sum_nonneg(old_b.skip(ii + 1));
            }
            offset = offset + b.get_size();
            i = i + 1;
        }
        proof {
            lemma_kfirst_fit_none(old_b, sz);
        }
        Option::None
    }

    /// As `kmalloc`, after rounding the request up to 8 bytes; on the
    /// machine the returned payload is zeroed as well, which the header
    /// chain does not record.
    pub fn kzmalloc(&mut self, sz: u64) -> (r: Option<u64>)
        requires
            old(self).wf(),
            sz < 0x3fff_ffff_ff00_0000,
        ensures
            final(self).wf(),
            final(self).arena_size == old(self).arena_size,
            r.is_some() == kfirst_fit(old(self).blocks@, kpadded(sz) as u64).is_some(),
            r.is_none() ==> final(self).blocks@ == old(self).blocks@,
            r matches Some(addr) ==> ({
                let i = kfirst_fit(old(self).blocks@, kpadded(sz) as u64).unwrap();
                &&& addr == koffset_of(old(self).blocks@, i) + 8
                &&& final(self).blocks@ == ksplit(old(self).blocks@, i, kpadded(sz) as u64)
            }),
    {
        proof {
            assert((1u64 << 3) - 1 == 7) by (bit_vector);
        }
        let size = align_address(sz, 3);
        proof {
            lemma_align_idempotent(sz);
        }
        self.kmalloc(size)
    }

    /// Free the allocation whose payload starts at `ptr`: clear the Taken
    /// bit on the header just before it, then run one coalescing pass over
    /// the whole chain.
    pub fn kfree(&mut self, ptr: u64)
        requires
            old(self).wf(),
            exists|i: int|
                0 <= i < old(self).blocks@.len() && #[trigger] koffset_of(old(self).blocks@, i) + 8
                    == ptr,
        ensures
            final(self).wf(),
            final(self).arena_size == old(self).arena_size,
            ({
                let i = choose|i: int|
                    0 <= i < old(self).blocks@.len() && #[trigger] koffset_of(
                        old(self).blocks@,
                        i,
                    ) + 8 == ptr;
                final(self).blocks@ == kcoalesce(
                    old(self).blocks@.update(
                        i,
                        kfree_block(kdesc_size(old(self).blocks@[i].flags_size)),
                    ),
                )
            }),
    {
        let ghost old_b = self.blocks@;
        let ghost target = choose|i: int|
            0 <= i < old_b.len() && #[trigger] koffset_of(old_b, i) + 8 == ptr;
        let mut i: usize = 0;
        let mut offset: u64 = 0;
        let mut found = self.blocks.len();
        while i < self.blocks.len()
            invariant
                old(self).wf(),
                self.wf(),
                *self == *old(self),
                old_b == self.blocks@,
                0 <= i <= self.blocks@.len(),
                found == self.blocks@.len() ==> offset == koffset_of(old_b, i as int),
                0 <= offset <= self.arena_size,
                0 <= target < old_b.len(),
                koffset_of(old_b, target) + 8 == ptr,
                found == self.blocks@.len() || found == target,
                (i as int) > target ==> found == target,
                found == self.blocks@.len() ==> (i as int) <= target,
                found != self.blocks@.len() ==> (i as int) == self.blocks@.len(),
            decreases self.blocks@.len() - i,
        {
            if offset + 8 == ptr {
                proof {
                    if i as int != target {
                        if (i as int) < target {
                            lemma_koffset_strict_mono(old_b, i as int, target);
                        } else {
                            lemma_koffset_strict_mono(old_b, target, i as int);
                        }
                        assert(false);
                    }
                }
                found = i;
                proof {
                    assert(found == target);
                }
                i = self.blocks.len();
            } else {
                proof {
                    let ii = i as int;
                    assert(ii != target);
                    if ii > target {
                        assert(false);
                    }
                    lemma_koffset_is_sum_take(old_b, ii + 1);
                    lemma_sum_split(old_b, ii + 1);
                    lemma_sum_nonneg(old_b.skip(ii + 1));
                }
                let b = self.blocks[i];
                offset = offset + b.get_size();
                i = i + 1;
            }
        }
        proof {
            assert(found == target);
        }
        let mut nb = self.blocks[found];
        nb.set_free();
        self.blocks[found] = nb;
        proof {
            lemma_kdesc_size_bound(old_b[target].flags_size);
            lemma_kdesc_size_id(kdesc_size(old_b[target].flags_size));
            assert(nb == kfree_block(kdesc_size(old_b[target].flags_size))) by {
                let x = old_b[target].flags_size;
                assert(nb.flags_size == x & 0x7fff_ffff_ffff_ffffu64);
                assert(x & 0x7fff_ffff_ffff_ffffu64 == x & 0x7fff_ffff_ffff_ffff
                    & 0x7fff_ffff_ffff_ffff) by (bit_vector);
            }
            lemma_sum_update(old_b, target, nb);
        }
        self.coalesce();
    }

    /// Merge adjacent free blocks, one forward pass, continuing after each
    /// merged pair as the scan on the machine does.
    fn coalesce(&mut self)
        requires
            old(self).wf(),
        ensures
            final(self).wf(),
            final(self).arena_size == old(self).arena_size,
            final(self).blocks@ == kcoalesce(old(self).blocks@),
    {
        let ghost input = self.blocks@;
        let mut result: Vec<KernelPageDescriptor> = Vec::new();
        let mut i: usize = 0;
        proof {
            assert(input.skip(0) =~= input);
            assert(result@ + kcoalesce(input) =~= kcoalesce(input));
        }
        while i < self.blocks.len()
            invariant
                old(self).wf(),
                self.wf(),
                *self == *old(self),
                input == self.blocks@,
                0 <= i <= self.blocks@.len(),
                result@ + kcoalesce(input.skip(i as int)) == kcoalesce(input),
            decreases self.blocks@.len() - i,
        {
            let b = self.blocks[i];
            let ghost ii = i as int;
            if i + 1 < self.blocks.len() && !b.is_taken() && !self.blocks[i + 1].is_taken() {
                let nxt = self.blocks[i + 1];
                proof {
                    assert(kdesc_size(b.flags_size) < 0x8000_0000_0000_0000 && kdesc_size(
                        nxt.flags_size,
                    ) < 0x8000_0000_0000_0000) by {
                        let x = b.flags_size;
                        let y = nxt.flags_size;
                        assert(x & 0x7fff_ffff_ffff_ffff < 0x8000_0000_0000_0000 && y
                            & 0x7fff_ffff_ffff_ffff < 0x8000_0000_0000_0000) by (bit_vector);
                    }
                    assert(input.skip(ii)[0] == input[ii]);
                    assert(input.skip(ii)[1] == input[ii + 1]);
                    assert(input.skip(ii).skip(2) =~= input.skip(ii + 2));
                    assert(kcoalesce(input.skip(ii)) == seq![
                        kfree_block(
                            (kdesc_size(b.flags_size) + kdesc_size(nxt.flags_size)) as u64,
                        ),
                    ] + kcoalesce(input.skip(ii + 2)));
                }
                result.push(KernelPageDescriptor::new(b.get_size() + nxt.get_size()));
                proof {
                    assert(result@ + kcoalesce(input.skip(ii + 2)) =~= kcoalesce(input));
                }
                i = i + 2;
            } else {
                proof {
                    if ii + 1 < input.len() {
                        assert(input.skip(ii)[0] == input[ii]);
                        assert(input.skip(ii)[1] == input[ii + 1]);
                        assert(input.skip(ii).skip(1) =~= input.skip(ii + 1));
                        assert(kcoalesce(input.skip(ii)) == seq![input[ii]] + kcoalesce(
                            input.skip(ii + 1),
                        ));
                    } else {
                        assert(input.skip(ii).len() == 1);
                        assert(input.skip(ii)[0] == input[ii]);
                        assert(kcoalesce(input.skip(ii)) =~= seq![input[ii]]);
                        assert(input.skip(ii + 1) =~= Seq::<KernelPageDescriptor>::empty());
                        assert(kcoalesce(input.skip(ii)) == seq![input[ii]] + kcoalesce(
                            input.skip(ii + 1),
                        )) by {
                            assert(seq![input[ii]] + Seq::<KernelPageDescriptor>::empty() =~= seq![
                                input[ii],
                            ]);
                        }
                    }
                }
                result.push(b);
                proof {
                    assert(result@ + kcoalesce(input.skip(ii + 1)) =~= kcoalesce(input));
                }
                i = i + 1;
            }
        }
        proof {
            assert(input.skip(input.len() as int) =~= Seq::<KernelPageDescriptor>::empty());
            assert(result@ =~= kcoalesce(input));
            lemma_kcoalesce_wf(input);
        }
        self.blocks = result;
    }
}

/// The scan's result is the fit it stopped at: nothing before `i` fits,
/// and `i` does.
pub proof fn lemma_kfirst_fit_stops(s: Seq<KernelPageDescriptor>, sz: u64, i: int)
    requires
        0 <= i < s.len(),
        !kdesc_taken(s[i].flags_size),
        sz <= kdesc_size(s[i].flags_size),
        forall|j: int|
            0 <= j < i ==> (kdesc_taken(#[trigger] s[j].flags_size) || sz > kdesc_size(
                s[j].flags_size,
            )),
    ensures
        kfirst_fit(s, sz) == Option::Some(i),
    decreases s.len(),
{
    lemma_kfirst_fit_from_step(s, sz, 0, i);
}

pub proof fn lemma_kfirst_fit_from_step(s: Seq<KernelPageDescriptor>, sz: u64, k: int, i: int)
    requires
        0 <= k <= i < s.len(),
        !kdesc_taken(s[i].flags_size),
        sz <= kdesc_size(s[i].flags_size),
        forall|j: int|
            k <= j < i ==> (kdesc_taken(#[trigger] s[j].flags_size) || sz > kdesc_size(
                s[j].flags_size,
            )),
    ensures
        kfirst_fit_from(s, sz, k) == Option::Some(i),
    decreases i - k,
{
    if k < i {
        lemma_kfirst_fit_from_step(s, sz, k + 1, i);
    }
}

/// The scan found no free block that fits.
pub proof fn lemma_kfirst_fit_none(s: Seq<KernelPageDescriptor>, sz: u64)
    requires
        forall|j: int|
            0 <= j < s.len() ==> (kdesc_taken(#[trigger] s[j].flags_size) || sz > kdesc_size(
                s[j].flags_size,
            )),
    ensures
        kfirst_fit(s, sz) == Option::<int>::None,
{
    lemma_kfirst_fit_from_none(s, sz, 0);
}

pub proof fn lemma_kfirst_fit_from_none(s: Seq<KernelPageDescriptor>, sz: u64, k: int)
    requires
        k >= 0,
        forall|j: int|
            k <= j < s.len() ==> (kdesc_taken(#[trigger] s[j].flags_size) || sz > kdesc_size(
                s[j].flags_size,
            )),
    ensures
        kfirst_fit_from(s, sz, k) == Option::<int>::None,
    decreases s.len() - k,
{
    if k < s.len() {
        lemma_kfirst_fit_from_none(s, sz, k + 1);
    }
}

/// A size word with the Taken bit masked off stays below the bit.
pub proof fn lemma_kdesc_size_bound(x: u64)
    ensures
        kdesc_size(x) < 0x8000_0000_0000_0000,
{
    assert(x & 0x7fff_ffff_ffff_ffff < 0x8000_0000_0000_0000) by (bit_vector);
}

/// The heap after one `kmalloc` of `req` bytes followed by `kfree` of the
/// returned address; when nothing fits, the pair changes nothing.
pub open spec fn kpair_step(h: Seq<KernelPageDescriptor>, req: u64) -> Seq<
    KernelPageDescriptor,
> {
    let sz = kpadded(req) as u64;
    if kfirst_fit(h, sz) is Some {
        let i = kfirst_fit(h, sz).unwrap();
        let split = ksplit(h, i, sz);
        kcoalesce(split.update(i, kfree_block(kdesc_size(split[i].flags_size))))
    } else {
        h
    }
}

/// A whole run of `kmalloc`/`kfree` pairs, left to right.
pub open spec fn krun_pairs(h: Seq<KernelPageDescriptor>, reqs: Seq<u64>) -> Seq<
    KernelPageDescriptor,
>
    decreases reqs.len(),
{
    if reqs.len() == 0 {
        h
    } else {
        krun_pairs(kpair_step(h, reqs[0]), reqs.drop_first())
    }
}

/// Law: on the pristine heap, a `kmalloc` that fits followed by `kfree` of
/// what it returned leaves a single free block spanning the whole arena
/// again: the split leaves `[taken, free]`, the free clears the Taken bit,
/// and the coalescing pass merges the two back together.
pub proof fn lemma_kmalloc_kfree_restores(arena: u64, req: u64)
    requires
        8 <= arena < 0x4000_0000_0000_0000,
        arena % 8 == 0,
        req + 7 <= u64::MAX,
        kpadded(req) <= arena,
    ensures
        kpair_step(seq![kfree_block(arena)], req) == seq![kfree_block(arena)],
{
    let h = seq![kfree_block(arena)];
    let sz = kpadded(req) as u64;
    assert((1u64 << 3) - 1 == 7) by (bit_vector);
    lemma_align_address_properties(req, 3);
    lemma_kdesc_size_id(arena);
    assert(sz >= 8 && sz <= arena);
    lemma_kdesc_size_id(sz);
    assert(kfirst_fit(h, sz) == Option::Some(0int)) by {
        lemma_kfirst_fit_stops(h, sz, 0);
    }
    let split = ksplit(h, 0, sz);
    let rem = arena - sz;
    if rem > 8 {
        lemma_kdesc_size_id(rem as u64);
        assert(split =~= seq![ktaken_block(sz), kfree_block(rem as u64)]);
        let freed = split.update(0, kfree_block(kdesc_size(split[0].flags_size)));
        assert(freed =~= seq![kfree_block(sz), kfree_block(rem as u64)]);
        assert(kcoalesce(freed) == seq![kfree_block((sz + rem) as u64)] + kcoalesce(
            freed.skip(2),
        ));
        assert(freed.skip(2) =~= Seq::<KernelPageDescriptor>::empty());
        assert(kcoalesce(freed.skip(2)) =~= Seq::<KernelPageDescriptor>::empty());
        assert(kcoalesce(freed) =~= seq![kfree_block(arena)]);
    } else {
        assert(split =~= seq![ktaken_block(arena)]);
        let freed = split.update(0, kfree_block(kdesc_size(split[0].flags_size)));
        assert(freed =~= seq![kfree_block(arena)]);
        assert(kcoalesce(freed) == freed);
    }
}

/// Law: any run of `kmalloc`/`kfree` pairs that never exhausts the arena
/// brings the heap back to a single free block spanning it.
pub proof fn lemma_kmalloc_kfree_sequence(arena: u64, reqs: Seq<u64>)
    requires
        8 <= arena < 0x4000_0000_0000_0000,
        arena % 8 == 0,
        forall|k: int|
            0 <= k < reqs.len() ==> #[trigger] reqs[k] + 7 <= u64::MAX && kpadded(reqs[k])
                <= arena,
    ensures
        krun_pairs(seq![kfree_block(arena)], reqs) == seq![kfree_block(arena)],
    decreases reqs.len(),
{
    if reqs.len() > 0 {
        lemma_kmalloc_kfree_restores(arena, reqs[0]);
        lemma_kmalloc_kfree_sequence(arena, reqs.drop_first());
    }
}

/// Aligning twice is aligning once.
pub proof fn lemma_align_idempotent(x: u64)
    requires
        x + 7 <= u64::MAX,
    ensures
        spec_align_address(spec_align_address(x, 3), 3) == spec_align_address(x, 3),
        kpadded(spec_align_address(x, 3)) == kpadded(x),
{
    assert(x <= 0xffff_ffff_ffff_fff8u64 ==> ((((((x + 7) as u64) & (!7u64)) + 7) as u64) & (
    !7u64)) == (((x + 7) as u64) & (!7u64))) by (bit_vector);
    assert((((1u64 << 3) - 1) as u64) == 7u64) by (bit_vector);
    assert((!(((1u64 << 3) - 1) as u64)) == !7u64) by (bit_vector);
}

} // verus!
