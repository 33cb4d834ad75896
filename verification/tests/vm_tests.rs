use rvos::address::{PhysAddr, PhysPageNum, VirtAddr, VirtPageNum, PageAddr, SimpleRange, SimpleRangeIterator};
use rvos::elf;
use rvos::frame_allocator::{frame_alloc, frame_dealloc, init_frame_allocator};
use rvos::memory_set::{KernelLayout, MapPermission, MapType, MemorySet, Segment, TRAMPOLINE_VPN, TRAP_CONTEXT_VPN};
use rvos::page_table::{PageTable, PageTableEntry, PTEFlags};
use rvos::phys_mem::PhysMemory;

fn small_world() -> (rvos::frame_allocator::StackFrameAllocator, PhysMemory) {
    let mem = PhysMemory::new(0x80400, 512);
    let fa = init_frame_allocator(PhysAddr(0x80400000), PhysAddr(0x80600000));
    (fa, mem)
}

pub fn test_layout() -> KernelLayout {
    KernelLayout {
        stext: 0x80200000,
        etext: 0x80202000,
        srodata: 0x80202000,
        erodata: 0x80203000,
        sdata: 0x80203000,
        edata: 0x80204000,
        sbss: 0x80204000,
        ebss: 0x80205000,
        ekernel: 0x80400000,
        memory_end: 0x80600000,
        strampoline: 0x80200000,
    }
}

/// A minimal ELF64 image: one loadable page-aligned segment.
pub fn make_elf(vaddr: u64, entry: u64, file_bytes: &[u8], memsz: u64) -> Vec<u8> {
    let filesz = file_bytes.len() as u64;
    assert!(filesz <= memsz);
    let offset: u64 = 120;
    let mut img = vec![0u8; (offset + filesz) as usize];
    img[0] = 0x7F;
    img[1] = 0x45;
    img[2] = 0x4C;
    img[3] = 0x46;
    img[24..32].copy_from_slice(&entry.to_le_bytes());
    img[32..40].copy_from_slice(&64u64.to_le_bytes()); // phoff
    img[54..56].copy_from_slice(&56u16.to_le_bytes()); // phentsize
    img[56..58].copy_from_slice(&1u16.to_le_bytes()); // phnum
    // one program header at offset 64
    img[64..68].copy_from_slice(&1u32.to_le_bytes()); // PT_LOAD
    img[68..72].copy_from_slice(&7u32.to_le_bytes()); // R W X
    img[72..80].copy_from_slice(&offset.to_le_bytes());
    img[80..88].copy_from_slice(&vaddr.to_le_bytes());
    img[96..104].copy_from_slice(&filesz.to_le_bytes());
    img[104..112].copy_from_slice(&memsz.to_le_bytes());
    img[(offset as usize)..].copy_from_slice(file_bytes);
    img
}

#[test]
fn address_page_arithmetic() {
    let a = VirtAddr(0x12345);
    assert_eq!(a.floor().0, 0x12);
    assert_eq!(a.ceil().0, 0x13);
    assert_eq!(a.page_offset(), 0x345);
    assert!(!a.aligned());
    let b = PhysAddr(0x80200000);
    assert_eq!(b.floor().0, 0x80200);
    assert_eq!(b.ceil().0, 0x80200);
    assert!(b.aligned());
    assert_eq!(b.page_num().0, 0x80200);
    assert_eq!(PhysPageNum(0x80200).base_addr().0, 0x80200000);
    assert_eq!(VirtPageNum(5).base_addr().0, 0x5000);
}

#[test]
fn vpn_indexes_split_nine_bits() {
    let vpn = VirtPageNum((3 << 18) | (7 << 9) | 11);
    let idx = vpn.indexes();
    assert_eq!(idx[0], 3);
    assert_eq!(idx[1], 7);
    assert_eq!(idx[2], 11);
    let top = VirtPageNum(TRAMPOLINE_VPN);
    assert_eq!(top.indexes(), [511, 511, 511]);
}

#[test]
fn simple_range_iterates_in_order() {
    let r: SimpleRange<VirtPageNum> = SimpleRange::new(VirtPageNum(4), VirtPageNum(7));
    assert_eq!(r.start().0, 4);
    assert_eq!(r.end().0, 7);
    let mut it: SimpleRangeIterator<VirtPageNum> = SimpleRangeIterator::new(VirtPageNum(4), VirtPageNum(7));
    let mut seen = Vec::new();
    while let Some(v) = it.next() {
        seen.push(v.0);
    }
    assert_eq!(seen, vec![4, 5, 6]);
}

#[test]
fn pte_packs_and_unpacks() {
    let flags = PTEFlags::from_bits(rvos::page_table::PTE_R | rvos::page_table::PTE_V);
    let pte = PageTableEntry::new(PhysPageNum(0x1234), flags);
    assert_eq!(pte.ppn().0, 0x1234);
    assert_eq!(pte.flags().bits, 3);
    assert!(pte.is_valid());
    assert!(pte.readable());
    assert!(!pte.writable());
    assert!(!pte.executable());
    let empty = PageTableEntry::empty();
    assert!(!empty.is_valid());
    assert_eq!(empty.bits, 0);
}

#[test]
fn fresh_frame_reads_as_zeros() {
    let (mut fa, mut mem) = small_world();
    let ft = frame_alloc(&mut fa, &mut mem).unwrap();
    for j in [0usize, 1, 17, 4095] {
        assert_eq!(mem.read_byte(ft.ppn.0, j), 0);
    }
    frame_dealloc(&mut fa, ft);
}

#[test]
fn frame_alloc_dealloc_is_leak_free() {
    let (mut fa, mut mem) = small_world();
    let mut held = Vec::new();
    for _ in 0..5 {
        held.push(frame_alloc(&mut fa, &mut mem).unwrap());
    }
    let ppns: Vec<u64> = held.iter().map(|f| f.ppn.0).collect();
    for (i, p) in ppns.iter().enumerate() {
        for q in &ppns[i + 1..] {
            assert_ne!(p, q);
        }
    }
    for f in held {
        frame_dealloc(&mut fa, f);
    }
    // the same five frames come back out
    let mut again = Vec::new();
    for _ in 0..5 {
        again.push(frame_alloc(&mut fa, &mut mem).unwrap());
    }
    let mut back: Vec<u64> = again.iter().map(|f| f.ppn.0).collect();
    let mut expect = ppns.clone();
    back.sort();
    expect.sort();
    assert_eq!(back, expect);
    for f in again {
        frame_dealloc(&mut fa, f);
    }
}

#[test]
fn map_translate_unmap_roundtrip() {
    let (mut fa, mut mem) = small_world();
    let mut pt = PageTable::new(&mut fa, &mut mem);
    let vpn = VirtPageNum(0x42);
    let other = VirtPageNum(0x43);
    assert!(pt.translate(&mem, vpn).is_none());
    let flags = PTEFlags::from_bits(rvos::page_table::PTE_R | rvos::page_table::PTE_W);
    pt.map(&mut mem, &mut fa, vpn, PhysPageNum(0x80500), flags);
    let pte = pt.translate(&mem, vpn).unwrap();
    assert!(pte.is_valid());
    assert_eq!(pte.ppn().0, 0x80500);
    assert_eq!(pte.flags().bits, 2 | 4 | 1);
    // a neighbour in the same leaf node stays unmapped
    match pt.translate(&mem, other) {
        None => {}
        Some(p) => assert!(!p.is_valid()),
    }
    pt.unmap(&mut mem, vpn);
    match pt.translate(&mem, vpn) {
        None => {}
        Some(p) => assert!(!p.is_valid()),
    }
}

#[test]
fn token_names_the_root() {
    let (mut fa, mut mem) = small_world();
    let pt = PageTable::new(&mut fa, &mut mem);
    let token = pt.token();
    assert_eq!(token >> 60, 8);
    let view = PageTable::from_token(token);
    let vpn = VirtPageNum(9);
    assert!(view.translate(&mem, vpn).is_none());
}

#[test]
fn segment_map_and_copy_data() {
    let (mut fa, mut mem) = small_world();
    let mut pt = PageTable::new(&mut fa, &mut mem);
    let mut seg = Segment::new(
        VirtAddr(0x10000),
        VirtAddr(0x12000),
        MapType::Framed,
        MapPermission { bits: 2 | 4 | 16 },
    );
    seg.map(&mut pt, &mut mem, &mut fa);
    let data = vec![9u8, 8, 7, 6, 5];
    seg.copy_data(&mut mem, &data, 0, data.len());
    let pte = pt.translate(&mem, VirtPageNum(0x10)).unwrap();
    assert!(pte.is_valid());
    let ppn = pte.ppn().0;
    for (j, b) in data.iter().enumerate() {
        assert_eq!(mem.read_byte(ppn, j), *b);
    }
    assert_eq!(mem.read_byte(ppn, data.len()), 0);
    seg.unmap(&pt, &mut mem, &mut fa);
}

#[test]
fn elf_reader_reads_fields() {
    let img = make_elf(0x10000, 0x10040, b"hello elf", 4096);
    assert!(elf::elf_check_magic(&img));
    assert_eq!(elf::elf_entry_point(&img), 0x10040);
    assert_eq!(elf::elf_num_prog_headers(&img), 1);
    let ph = elf::elf_prog_header(&img, 0);
    assert_eq!(ph.ptype, 1);
    assert_eq!(ph.vaddr, 0x10000);
    assert_eq!(ph.filesz, 9);
    assert_eq!(ph.memsz, 4096);
    assert_eq!(ph.flags, 7);
}

#[test]
fn new_elf_loads_bytes_and_zero_fill() {
    let (mut fa, mut mem) = small_world();
    let payload = b"payload bytes for the loader";
    let img = make_elf(0x10000, 0x10000, payload, 8192);
    let (ms, user_sp, entry) = MemorySet::new_elf(&mut mem, &mut fa, &img, PhysPageNum(0x80200));
    assert_eq!(entry, 0x10000);
    assert_eq!(user_sp % 4096, 0);
    // readback: file bytes then zero fill (the round trip of the loader)
    let pte = ms.translate(&mem, VirtPageNum(0x10)).unwrap();
    assert!(pte.is_valid());
    let ppn = pte.ppn().0;
    for (j, b) in payload.iter().enumerate() {
        assert_eq!(mem.read_byte(ppn, j), *b, "file byte {j}");
    }
    for j in payload.len()..4096 {
        assert_eq!(mem.read_byte(ppn, j), 0, "zero fill at {j}");
    }
    let pte2 = ms.translate(&mem, VirtPageNum(0x11)).unwrap();
    assert!(pte2.is_valid());
    assert_eq!(mem.read_byte(pte2.ppn().0, 0), 0);
    // the trampoline and the trap context are in place
    let tramp = ms.translate(&mem, VirtPageNum(TRAMPOLINE_VPN)).unwrap();
    assert!(tramp.is_valid());
    assert_eq!(tramp.ppn().0, 0x80200);
    assert_eq!(tramp.flags().bits, 11);
    let tc = ms.translate(&mem, VirtPageNum(TRAP_CONTEXT_VPN)).unwrap();
    assert!(tc.is_valid());
    assert_eq!(tc.flags().bits, 7);
}

#[test]
fn trampoline_shared_between_kernel_and_user() {
    let (mut fa, mut mem) = small_world();
    let layout = test_layout();
    let kernel = MemorySet::new_kernel(&mut mem, &mut fa, &layout);
    let img = make_elf(0x10000, 0x10000, b"x", 4096);
    let (user, _sp, _entry) = MemorySet::new_elf(&mut mem, &mut fa, &img, PhysPageNum(0x80200));
    let kt = kernel.translate(&mem, VirtPageNum(TRAMPOLINE_VPN)).unwrap();
    let ut = user.translate(&mem, VirtPageNum(TRAMPOLINE_VPN)).unwrap();
    assert!(kt.is_valid() && ut.is_valid());
    assert_eq!(kt.ppn().0, ut.ppn().0);
    assert_eq!(kt.flags().bits, 11); // R X V, no U
    assert_eq!(ut.flags().bits, 11);
}

#[test]
fn kernel_space_identity_maps_sections() {
    let (mut fa, mut mem) = small_world();
    let layout = test_layout();
    let kernel = MemorySet::new_kernel(&mut mem, &mut fa, &layout);
    let text = kernel.translate(&mem, VirtPageNum(0x80200)).unwrap();
    assert!(text.is_valid());
    assert_eq!(text.ppn().0, 0x80200);
    assert_eq!(text.flags().bits, 11); // R X V
    let frame = kernel.translate(&mem, VirtPageNum(0x80400)).unwrap();
    assert!(frame.is_valid());
    assert_eq!(frame.ppn().0, 0x80400);
    assert_eq!(frame.flags().bits, 7); // R W V
}

#[test]
fn memory_set_recycle_returns_all_frames() {
    let (mut fa, mut mem) = small_world();
    let free_before = {
        // count by draining: build and recycle, then compare allocations
        let img = make_elf(0x10000, 0x10000, b"tiny", 4096);
        let (ms, _sp, _e) = MemorySet::new_elf(&mut mem, &mut fa, &img, PhysPageNum(0x80200));
        let probe = frame_alloc(&mut fa, &mut mem).unwrap();
        let during = probe.ppn.0;
        frame_dealloc(&mut fa, probe);
        ms.recycle(&mem, &mut fa);
        during
    };
    // after recycling, allocation starts from the very first frame again
    let probe = frame_alloc(&mut fa, &mut mem).unwrap();
    assert!(probe.ppn.0 <= free_before);
    frame_dealloc(&mut fa, probe);
}
