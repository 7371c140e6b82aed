use tong_os::cpu::build_satp;
use tong_os::kmem::KernelHeap;
use tong_os::lock::Mutex;
use tong_os::page::align_address;
use tong_os::page::Memory;
use tong_os::page::PageTableEntryFlags;
use tong_os::process::Process;
use tong_os::process::SectionLayout;

const BASE: u64 = 0x10_0000;

fn fresh_memory(pages: usize) -> Memory {
    Memory::init(BASE, pages)
}

#[test]
fn align_rounds_up_to_powers_of_two() {
    assert_eq!(align_address(0, 12), 0);
    assert_eq!(align_address(1, 12), 4096);
    assert_eq!(align_address(4096, 12), 4096);
    assert_eq!(align_address(4097, 12), 8192);
    assert_eq!(align_address(13, 3), 16);
    assert_eq!(align_address(16, 3), 16);
}

#[test]
fn alloc_is_first_fit_and_stamps_descriptors() {
    let mut mem = fresh_memory(16);
    let a = mem.alloc_pages(2).unwrap();
    assert_eq!(a, BASE);
    assert_eq!(mem.descriptors[0].flags, 1);
    assert_eq!(mem.descriptors[1].flags, 3);
    let b = mem.alloc_pages(1).unwrap();
    assert_eq!(b, BASE + 2 * 4096);
    assert_eq!(mem.descriptors[2].flags, 3);
}

#[test]
fn alloc_dealloc_restores_descriptors_bitwise() {
    let mut mem = fresh_memory(16);
    let _keep = mem.alloc_pages(3).unwrap();
    let before: Vec<u8> = mem.descriptors.iter().map(|d| d.flags).collect();
    let p = mem.alloc_pages(4).unwrap();
    mem.dealloc(p);
    let after: Vec<u8> = mem.descriptors.iter().map(|d| d.flags).collect();
    assert_eq!(before, after);
}

#[test]
fn alloc_finds_the_final_window_and_fails_only_when_none_exists() {
    let mut mem = fresh_memory(8);
    let _a = mem.alloc_pages(4).unwrap();
    // the remaining window ends at the very last page and is still found
    let b = mem.alloc_pages(4).unwrap();
    assert_eq!(b, BASE + 4 * 4096);
    assert!(mem.alloc_pages(1).is_none());
}

#[test]
fn alloc_fails_when_only_fragments_remain() {
    let mut mem = fresh_memory(8);
    let a = mem.alloc_pages(3).unwrap();
    let _b = mem.alloc_pages(2).unwrap();
    mem.dealloc(a);
    // free pages: three at the front, three at the back, none contiguous
    assert!(mem.alloc_pages(4).is_none());
    assert!(mem.alloc_pages(3).is_some());
}

#[test]
fn zalloc_zeroes_the_frames() {
    let mut mem = fresh_memory(8);
    let a = mem.zalloc(1).unwrap();
    let idx = ((a - BASE) / 4096) as usize;
    for e in 0..512 {
        assert_eq!(mem.tables[idx].entries[e].entry, 0);
    }
}

#[test]
fn map_then_translate_returns_the_mapped_address() {
    let mut mem = fresh_memory(32);
    let root = mem.zalloc(1).unwrap();
    let va: u64 = 0x4000_2000;
    mem.map(root, va, va, PageTableEntryFlags::UserReadWrite.value(), 0);
    assert_eq!(mem.virtual_address_translation(root, va), Some(va));
    assert_eq!(
        mem.virtual_address_translation(root, va + 8),
        Some(va + 8)
    );
    assert_eq!(mem.virtual_address_translation(root, va + 4096), None);
}

#[test]
fn map_distinct_pages_translate_independently() {
    let mut mem = fresh_memory(32);
    let root = mem.zalloc(1).unwrap();
    mem.map(root, 0x1000, 0x7000, PageTableEntryFlags::ReadWrite.value(), 0);
    mem.map(root, 0x2000, 0x8000, PageTableEntryFlags::ReadWrite.value(), 0);
    assert_eq!(mem.virtual_address_translation(root, 0x1000), Some(0x7000));
    assert_eq!(mem.virtual_address_translation(root, 0x2abc), Some(0x8abc));
}

#[test]
fn megapage_leaf_translates_with_wide_offset() {
    let mut mem = fresh_memory(32);
    let root = mem.zalloc(1).unwrap();
    mem.map(
        root,
        0x4000_0000,
        0x4000_0000,
        PageTableEntryFlags::ReadWrite.value(),
        1,
    );
    assert_eq!(
        mem.virtual_address_translation(root, 0x4012_3456),
        Some(0x4012_3456)
    );
}

#[test]
fn build_satp_packs_mode_asid_and_ppn() {
    let satp = build_satp(7, 0x8030_1000);
    assert_eq!(satp >> 60, 8);
    assert_eq!((satp >> 44) & 0xffff, 7);
    assert_eq!(satp & 0xFFF_FFFF_FFFF, 0x8030_1000u64 >> 12);
    let satp2 = build_satp(0x1_0005, 0x8000_0000);
    assert_eq!((satp2 >> 44) & 0xffff, 5);
}

#[test]
fn kmalloc_splits_and_kfree_coalesces_back() {
    let mut heap = KernelHeap::init(2048 * 4096);
    let p = heap.kmalloc(100).unwrap();
    assert_eq!(p, 8);
    assert_eq!(heap.blocks.len(), 2);
    assert!(heap.blocks[0].is_taken());
    assert_eq!(heap.blocks[0].get_size(), 104 + 8);
    heap.kfree(p);
    assert_eq!(heap.blocks.len(), 1);
    assert!(!heap.blocks[0].is_taken());
    assert_eq!(heap.blocks[0].get_size(), 2048 * 4096);
}

#[test]
fn kmalloc_kfree_pairs_restore_the_arena() {
    let mut heap = KernelHeap::init(2048 * 4096);
    for size in [1u64, 8, 64, 4096, 100000, 0] {
        let p = heap.kmalloc(size).unwrap();
        heap.kfree(p);
        assert_eq!(heap.blocks.len(), 1);
        assert!(!heap.blocks[0].is_taken());
        assert_eq!(heap.blocks[0].get_size(), 2048 * 4096);
    }
}

#[test]
fn kzmalloc_pads_like_kmalloc() {
    let mut heap = KernelHeap::init(4096);
    let p = heap.kzmalloc(3).unwrap();
    assert_eq!(p, 8);
    assert_eq!(heap.blocks[0].get_size(), 16);
    heap.kfree(p);
    assert_eq!(heap.blocks[0].get_size(), 4096);
}

#[test]
fn kmalloc_exhaustion_returns_nothing() {
    let mut heap = KernelHeap::init(64);
    let a = heap.kmalloc(24).unwrap();
    let _b = heap.kmalloc(16).unwrap();
    assert!(heap.kmalloc(64).is_none());
    heap.kfree(a);
    assert!(heap.kmalloc(24).is_some());
}

#[test]
fn try_lock_succeeds_exactly_once_between_unlocks() {
    let mut m = Mutex::new();
    assert!(m.try_lock());
    assert!(!m.try_lock());
    assert!(!m.try_lock());
    m.unlock();
    assert!(m.try_lock());
    assert!(!m.try_lock());
}

#[test]
fn unmap_frees_every_intermediate_table() {
    let mut mem = Memory::init(BASE, 32);
    let root = mem.zalloc(1).unwrap();
    // two distant addresses force separate level-1 and level-0 tables
    mem.map(root, 0x1000, 0x1000, PageTableEntryFlags::UserReadWrite.value(), 0);
    mem.map(
        root,
        0x4000_0000,
        0x4000_0000,
        PageTableEntryFlags::UserReadWrite.value(),
        0,
    );
    let taken_with_tables = mem
        .descriptors
        .iter()
        .filter(|d| d.flags != 0)
        .count();
    assert_eq!(taken_with_tables, 5);
    mem.unmap(root);
    mem.dealloc(root);
    for d in mem.descriptors.iter() {
        assert_eq!(d.flags, 0);
    }
}

#[test]
fn process_frames_can_all_be_returned() {
    let layout = SectionLayout {
        text_start: 0x1000,
        text_end: 0x2000,
        rodata_start: 0x2000,
        rodata_end: 0x3000,
        data_start: 0x3000,
        data_end: 0x4000,
        bss_start: 0x4000,
        bss_end: 0x5000,
        heap_start: 0x5000,
        heap_size: 0x1000,
    };
    let mut mem = Memory::init(BASE, 64);
    let before: Vec<u8> = mem.descriptors.iter().map(|d| d.flags).collect();
    let p = Process::new(&mut mem, &layout, 9, 0, 0x1000, 1, 2, 3);
    assert_eq!(p.pid, 9);
    assert_eq!(p.trap_frame.regs[10], 1);
    // dropping the process returns its stack and every table frame
    mem.dealloc(p.stack);
    mem.unmap(p.page_table);
    mem.dealloc(p.page_table);
    let after: Vec<u8> = mem.descriptors.iter().map(|d| d.flags).collect();
    assert_eq!(before, after);
}

#[test]
fn allocation_runs_report_every_taken_page() {
    let mut mem = fresh_memory(16);
    let a = mem.alloc_pages(2).unwrap();
    let _b = mem.alloc_pages(1).unwrap();
    let c = mem.alloc_pages(3).unwrap();
    mem.dealloc(a);
    let runs = mem.page_allocation_runs();
    assert_eq!(runs, vec![(2, 2), (3, 5)]);
    mem.dealloc(c);
    assert_eq!(mem.page_allocation_runs(), vec![(2, 2)]);
}
