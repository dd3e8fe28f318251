use rcore_mm::address::{PhysPageNum, VirtAddr, VirtPageNum};
use rcore_mm::elf::ElfError;
use rcore_mm::frame_allocator::StackFrameAllocator;
use rcore_mm::memory_set::{KernelLayout, MapArea, MapPermission, MapType, MemorySet, MAP_R, MAP_U, MAP_W, MAP_X};
use rcore_mm::page_table::{PTEFlags, PageTable, PageTableEntry, PTE_R, PTE_V, PTE_W};
use rcore_mm::syscall::{sys_mmap, sys_munmap};

fn pool() -> StackFrameAllocator {
    StackFrameAllocator::new(PhysPageNum(0x80000), PhysPageNum(0x88000))
}

fn put_u16(v: &mut Vec<u8>, at: usize, x: u16) {
    v[at..at + 2].copy_from_slice(&x.to_le_bytes());
}

fn put_u32(v: &mut Vec<u8>, at: usize, x: u32) {
    v[at..at + 4].copy_from_slice(&x.to_le_bytes());
}

fn put_u64(v: &mut Vec<u8>, at: usize, x: u64) {
    v[at..at + 8].copy_from_slice(&x.to_le_bytes());
}

/// A 64-bit little-endian ELF image with one program header.
fn elf_image(p_type: u32, flags: u32, vaddr: u64, mem_size: u64, payload: &[u8]) -> Vec<u8> {
    let data_off = 0x80usize;
    let mut v = vec![0u8; data_off + payload.len()];
    v[0..4].copy_from_slice(&[0x7f, b'E', b'L', b'F']);
    v[4] = 2;
    v[5] = 1;
    v[6] = 1;
    put_u16(&mut v, 16, 2);
    put_u16(&mut v, 18, 0xf3);
    put_u32(&mut v, 20, 1);
    put_u64(&mut v, 24, 0x10000);
    put_u64(&mut v, 32, 64);
    put_u64(&mut v, 40, 0);
    put_u32(&mut v, 48, 0);
    put_u16(&mut v, 52, 64);
    put_u16(&mut v, 54, 56);
    put_u16(&mut v, 56, 1);
    put_u16(&mut v, 58, 64);
    put_u16(&mut v, 60, 0);
    put_u16(&mut v, 62, 0);
    put_u32(&mut v, 64, p_type);
    put_u32(&mut v, 68, flags);
    put_u64(&mut v, 72, data_off as u64);
    put_u64(&mut v, 80, vaddr);
    put_u64(&mut v, 88, vaddr);
    put_u64(&mut v, 96, payload.len() as u64);
    put_u64(&mut v, 104, mem_size);
    put_u64(&mut v, 112, 0x1000);
    v[data_off..].copy_from_slice(payload);
    v
}

#[test]
fn mmap_two_pages_on_empty_space() {
    let mut alloc = pool();
    let mut ms = MemorySet::new_bare(&mut alloc);
    assert_eq!(sys_mmap(&mut ms, 0x1000, 0x2000, 0x3, &mut alloc), 0);
    assert_eq!(ms.area_count(), 1);
    let a = ms.area(0);
    assert_eq!(a.get_start(), VirtPageNum(1));
    assert_eq!(a.get_end(), VirtPageNum(3));
    assert_eq!(a.get_type(), MapType::Framed);
    assert_eq!(a.get_perm().bits, MAP_R | MAP_W | MAP_U);
    assert_eq!(a.frames_len(), 2);
    for vpn in 1..3u64 {
        let pte = ms.translate(VirtPageNum(vpn)).unwrap();
        assert!(pte.is_valid());
        assert!(pte.readable());
        assert!(pte.writable());
        assert!(!pte.executable());
        assert!(pte.PTE_U());
    }
    assert!(ms.translate(VirtPageNum(3)).is_none());
}

#[test]
fn mmap_unaligned_start_fails() {
    let mut alloc = pool();
    let mut ms = MemorySet::new_bare(&mut alloc);
    assert_eq!(sys_mmap(&mut ms, 0x1001, 0x2000, 0x3, &mut alloc), -1);
    assert_eq!(ms.area_count(), 0);
}

#[test]
fn mmap_without_permission_fails() {
    let mut alloc = pool();
    let mut ms = MemorySet::new_bare(&mut alloc);
    assert_eq!(sys_mmap(&mut ms, 0x1000, 0x1000, 0x0, &mut alloc), -1);
    assert_eq!(sys_mmap(&mut ms, 0x1000, 0x1000, 0x8, &mut alloc), -1);
    assert_eq!(ms.area_count(), 0);
}

#[test]
fn munmap_of_unmapped_range_fails() {
    let mut alloc = pool();
    let mut ms = MemorySet::new_bare(&mut alloc);
    assert!(!ms.judge_unmap_right(VirtPageNum(1), VirtPageNum(3)));
    assert_eq!(sys_munmap(&mut ms, 0x1000, 0x2000, &mut alloc), -1);
    assert_eq!(ms.area_count(), 0);
    assert!(ms.translate(VirtPageNum(1)).is_none());
}

#[test]
fn zero_length_is_a_no_op() {
    let mut alloc = pool();
    let mut ms = MemorySet::new_bare(&mut alloc);
    assert_eq!(sys_mmap(&mut ms, 0x1001, 0, 0, &mut alloc), 0);
    assert_eq!(sys_munmap(&mut ms, 0x1000, 0, &mut alloc), 0);
    assert_eq!(ms.area_count(), 0);
}

#[test]
fn munmap_checks_alignment_before_length() {
    let mut alloc = pool();
    let mut ms = MemorySet::new_bare(&mut alloc);
    assert_eq!(sys_munmap(&mut ms, 0x1001, 0, &mut alloc), -1);
}

#[test]
fn mmap_then_munmap_restores_the_space() {
    let mut alloc = pool();
    let mut ms = MemorySet::new_bare(&mut alloc);
    assert_eq!(sys_mmap(&mut ms, 0x10000, 0x1000, 0x1, &mut alloc), 0);
    assert_eq!(ms.area_count(), 1);
    assert_eq!(sys_mmap(&mut ms, 0x20000, 0x3000, 0x3, &mut alloc), 0);
    assert_eq!(ms.area_count(), 2);
    assert!(ms.translate(VirtPageNum(0x21)).is_some());
    assert_eq!(sys_munmap(&mut ms, 0x20000, 0x3000, &mut alloc), 0);
    assert_eq!(ms.area_count(), 1);
    assert_eq!(ms.area(0).get_start(), VirtPageNum(0x10));
    for vpn in 0x20..0x23u64 {
        assert!(ms.translate(VirtPageNum(vpn)).is_none());
    }
    assert!(ms.translate(VirtPageNum(0x10)).is_some());
}

#[test]
fn mmap_over_mapped_pages_keeps_regions_apart() {
    let mut alloc = pool();
    let mut ms = MemorySet::new_bare(&mut alloc);
    assert_eq!(sys_mmap(&mut ms, 0x3000, 0x1000, 0x3, &mut alloc), 0);
    assert!(ms.judge_map_right(VirtPageNum(2), VirtPageNum(5)));
    assert_eq!(sys_mmap(&mut ms, 0x4000, 0x2000, 0x3, &mut alloc), 0);
    assert_eq!(ms.area_count(), 2);
    assert_eq!(ms.area(1).get_start(), VirtPageNum(4));
    assert_eq!(ms.area(1).get_end(), VirtPageNum(6));
    assert!(!ms.include_framed_area(VirtPageNum(6), VirtPageNum(9)));
    assert!(ms.include_framed_area(VirtPageNum(5), VirtPageNum(9)));
}

#[test]
fn partial_munmap_removes_only_emptied_regions() {
    let mut alloc = pool();
    let mut ms = MemorySet::new_bare(&mut alloc);
    assert_eq!(sys_mmap(&mut ms, 0x1000, 0x3000, 0x3, &mut alloc), 0);
    assert_eq!(sys_munmap(&mut ms, 0x1000, 0x1000, &mut alloc), 0);
    assert_eq!(ms.area_count(), 1);
    assert_eq!(ms.area(0).frames_len(), 2);
    assert!(ms.translate(VirtPageNum(1)).is_none());
    assert!(ms.translate(VirtPageNum(2)).is_some());
    assert_eq!(sys_munmap(&mut ms, 0x1000, 0x1000, &mut alloc), -1);
}

#[test]
fn map_then_translate_round_trip() {
    let mut alloc = pool();
    let mut pt = PageTable::new(&mut alloc);
    let flags = PTEFlags::from_bits(PTE_R | PTE_W);
    assert!(pt.map(VirtPageNum(0x1234), PhysPageNum(0x4321), flags, &mut alloc));
    let pte = pt.translate(VirtPageNum(0x1234)).unwrap();
    assert_eq!(pte.ppn(), PhysPageNum(0x4321));
    assert_eq!(pte.flags().bits(), PTE_R | PTE_W | PTE_V);
    assert!(pt.translate(VirtPageNum(0x1235)).is_none());
}

#[test]
fn second_map_of_a_page_fails() {
    let mut alloc = pool();
    let mut pt = PageTable::new(&mut alloc);
    assert!(pt.map(VirtPageNum(7), PhysPageNum(0x100), PTEFlags::from_bits(PTE_R), &mut alloc));
    assert!(!pt.map(VirtPageNum(7), PhysPageNum(0x200), PTEFlags::from_bits(PTE_W), &mut alloc));
    assert_eq!(pt.translate(VirtPageNum(7)).unwrap().ppn(), PhysPageNum(0x100));
    assert!(pt.unmap(VirtPageNum(7)));
    assert!(!pt.unmap(VirtPageNum(7)));
    assert!(pt.map(VirtPageNum(7), PhysPageNum(0x200), PTEFlags::from_bits(PTE_W), &mut alloc));
    assert_eq!(pt.translate(VirtPageNum(7)).unwrap().ppn(), PhysPageNum(0x200));
}

#[test]
fn entry_packs_page_number_and_flags() {
    let e = PageTableEntry::new(PhysPageNum(0xabcde), PTEFlags::from_bits(0x1f));
    assert_eq!(e.bits, (0xabcde << 10) | 0x1f);
    assert_eq!(e.ppn(), PhysPageNum(0xabcde));
    assert_eq!(e.flags().bits(), 0x1f);
    assert!(e.is_valid() && e.readable() && e.writable() && e.executable() && e.PTE_U());
    assert!(!PageTableEntry::empty().is_valid());
}

#[test]
fn token_encodes_mode_and_root() {
    let mut alloc = pool();
    let own = PageTable::new(&mut alloc);
    assert_eq!(own.token(), (8u64 << 60) | 0x80000);
}

#[test]
fn token_view_reads_the_owner_table() {
    let mut alloc = pool();
    let mut a = MemorySet::new_bare(&mut alloc);
    let b = MemorySet::new_bare(&mut alloc);
    assert_eq!(sys_mmap(&mut a, 0x5000, 0x1000, 0x3, &mut alloc), 0);
    let ta = a.token();
    let tb = b.token();
    let spaces = vec![b, a];
    let view = PageTable::from_token(ta, &spaces).unwrap();
    assert_eq!(view.token(), ta);
    assert!(view.translate(VirtPageNum(5)).is_some());
    let other = PageTable::from_token(tb, &spaces).unwrap();
    assert!(other.translate(VirtPageNum(5)).is_none());
    assert!(PageTable::from_token(ta + 0x100, &spaces).is_none());
}

#[test]
fn elf_image_builds_user_space() {
    let mut alloc = pool();
    let payload: Vec<u8> = (0..0x1800u32).map(|i| (i % 251) as u8).collect();
    let image = elf_image(1, 5, 0x10000, 0x3000, &payload);
    let (ms, sp, entry) = MemorySet::from_elf(&image, 0x8020_0000, &mut alloc).unwrap();
    assert_eq!(entry, 0x10000);
    assert_eq!(ms.area_count(), 3);
    let seg = ms.area(0);
    assert_eq!(seg.get_start(), VirtPageNum(0x10));
    assert_eq!(seg.get_end(), VirtPageNum(0x13));
    assert_eq!(seg.get_type(), MapType::Framed);
    assert_eq!(seg.get_perm().bits, MAP_R | MAP_X | MAP_U);
    let stack = ms.area(1);
    assert_eq!(stack.get_start(), VirtPageNum(0x14));
    assert_eq!(stack.get_end(), VirtPageNum(0x16));
    assert_eq!(stack.get_perm().bits, MAP_R | MAP_W | MAP_U);
    assert_eq!(sp, 0x16000);
    let trap = ms.area(2);
    assert_eq!(trap.get_start(), VirtPageNum(0x7ff_fffe));
    assert_eq!(trap.get_end(), VirtPageNum(0x7ff_ffff));
    assert_eq!(trap.get_perm().bits, MAP_R | MAP_W);
    let tramp = ms.translate(VirtPageNum(0x7ff_ffff)).unwrap();
    assert_eq!(tramp.ppn(), PhysPageNum(0x80200));
    assert!(tramp.readable() && tramp.executable() && !tramp.PTE_U());
    assert!(!ms.include_framed_area(VirtPageNum(0x7ff_ffff), VirtPageNum(0x800_0000)));
    let code = ms.translate(VirtPageNum(0x11)).unwrap();
    assert!(code.readable() && code.executable() && code.PTE_U() && !code.writable());
    assert!(ms.translate(VirtPageNum(0x13)).is_none());
}

#[test]
fn elf_without_magic_is_rejected() {
    let mut alloc = pool();
    let mut image = elf_image(1, 5, 0x10000, 0x3000, &[1, 2, 3]);
    image[1] = b'X';
    assert_eq!(MemorySet::from_elf(&image, 0x8020_0000, &mut alloc).err(), Some(ElfError::BadMagic));
    assert_eq!(MemorySet::from_elf(&[0x7f], 0x8020_0000, &mut alloc).err(), Some(ElfError::BadMagic));
}

#[test]
fn elf_non_load_header_is_skipped() {
    let mut alloc = pool();
    let image = elf_image(4, 4, 0x10000, 0x1000, &[9, 9]);
    let (ms, sp, _) = MemorySet::from_elf(&image, 0x8020_0000, &mut alloc).unwrap();
    assert_eq!(ms.area_count(), 2);
    assert_eq!(ms.area(0).get_start(), VirtPageNum(1));
    assert_eq!(sp, 0x3000);
}

#[test]
fn elf_segment_past_the_file_is_malformed() {
    let mut alloc = pool();
    let mut image = elf_image(1, 6, 0x10000, 0x1000, &[1, 2, 3, 4]);
    put_u64(&mut image, 96, 0x10000);
    assert_eq!(MemorySet::from_elf(&image, 0x8020_0000, &mut alloc).err(), Some(ElfError::Malformed));
}

#[test]
fn kernel_space_maps_sections_identically() {
    let mut alloc = StackFrameAllocator::new(PhysPageNum(0x80400), PhysPageNum(0x88000));
    let layout = KernelLayout {
        stext: 0x8020_0000,
        etext: 0x8020_2000,
        srodata: 0x8020_2000,
        erodata: 0x8020_3000,
        sdata: 0x8020_3000,
        edata: 0x8020_4000,
        sbss_with_stack: 0x8020_4000,
        ebss: 0x8030_0000,
        ekernel: 0x8030_0000,
        strampoline: 0x8020_1000,
    };
    let ms = MemorySet::new_kernel(&layout, &mut alloc).unwrap();
    assert_eq!(ms.area_count(), 5);
    let text = ms.translate(VirtPageNum(0x80201)).unwrap();
    assert_eq!(text.ppn(), PhysPageNum(0x80201));
    assert!(text.readable() && text.executable() && !text.writable());
    let rodata = ms.translate(VirtPageNum(0x80202)).unwrap();
    assert!(rodata.readable() && !rodata.writable() && !rodata.executable());
    let data = ms.translate(VirtPageNum(0x80203)).unwrap();
    assert!(data.writable() && !data.executable());
    let top = ms.translate(VirtPageNum(0x87fff)).unwrap();
    assert_eq!(top.ppn(), PhysPageNum(0x87fff));
    assert!(ms.translate(VirtPageNum(0x88000)).is_none());
    assert_eq!(ms.area(4).get_type(), MapType::Identical);
    assert!(rcore_mm::memory_set::remap_test(&ms, &layout));
}

#[test]
fn cancel_removes_the_first_intersecting_region() {
    let mut alloc = pool();
    let mut ms = MemorySet::new_bare(&mut alloc);
    ms.insert_framed_area(VirtAddr(0x5000), VirtAddr(0x7000), MapPermission::from_bits(MAP_R | MAP_U), &mut alloc);
    ms.insert_framed_area(VirtAddr(0x9000), VirtAddr(0xa000), MapPermission::from_bits(MAP_R | MAP_U), &mut alloc);
    assert!(ms.cancel_framed_area(VirtAddr(0x5000), VirtAddr(0x7000), &mut alloc));
    assert_eq!(ms.area_count(), 1);
    assert_eq!(ms.area(0).get_start(), VirtPageNum(9));
    assert!(ms.translate(VirtPageNum(5)).is_none());
}

#[test]
fn region_maps_and_unmaps_its_pages() {
    let mut alloc = pool();
    let mut pt = PageTable::new(&mut alloc);
    let mut area = MapArea::new(VirtAddr(0x2000), VirtAddr(0x4800), MapType::Framed, MapPermission::from_bits(MAP_R));
    assert_eq!(area.get_end(), VirtPageNum(5));
    assert!(area.map(&mut pt, &mut alloc));
    assert_eq!(area.frames_len(), 3);
    area.copy_data(&[7u8; 5000]);
    assert!(pt.translate(VirtPageNum(4)).is_some());
    assert!(area.unmap(&mut pt, &mut alloc));
    assert_eq!(area.frames_len(), 0);
    assert!(pt.translate(VirtPageNum(2)).is_none());
    assert!(!area.unmap(&mut pt, &mut alloc));
}

#[test]
fn frame_pool_counts_and_recycles() {
    let mut alloc = StackFrameAllocator::new(PhysPageNum(10), PhysPageNum(12));
    assert_eq!(alloc.free_frames(), 2);
    let a = alloc.alloc_frame().unwrap();
    let b = alloc.alloc_frame().unwrap();
    assert_ne!(a.ppn, b.ppn);
    assert!(a.bytes.iter().all(|x| *x == 0));
    assert!(alloc.alloc_frame().is_none());
    let pa = a.ppn;
    alloc.dealloc_frame(a);
    assert_eq!(alloc.free_frames(), 1);
    assert_eq!(alloc.alloc_frame().unwrap().ppn, pa);
}

#[test]
fn addresses_round_to_pages() {
    assert_eq!(VirtAddr(0x1fff).floor(), VirtPageNum(1));
    assert_eq!(VirtAddr(0x1fff).ceil(), VirtPageNum(2));
    assert_eq!(VirtAddr(0x2000).ceil(), VirtPageNum(2));
    assert_eq!(VirtAddr(0).ceil(), VirtPageNum(0));
    assert_eq!(VirtAddr(0x1234).page_offset(), 0x234);
    assert_eq!(VirtAddr::new(u64::MAX).0, (1u64 << 39) - 1);
    assert_eq!(VirtPageNum((3 << 18) | (5 << 9) | 7).indexes(), [3, 5, 7]);
}

#[test]
fn frames_are_accounted_for() {
    let mut alloc = pool();
    let total = alloc.free_frames();
    let mut ms = MemorySet::new_bare(&mut alloc);
    assert_eq!(alloc.free_frames(), total - 1);
    assert_eq!(sys_mmap(&mut ms, 0x1000, 0x2000, 0x3, &mut alloc), 0);
    // one middle-level and one last-level table page, and two data frames
    assert_eq!(alloc.free_frames(), total - 5);
    assert_eq!(sys_munmap(&mut ms, 0x1000, 0x2000, &mut alloc), 0);
    assert_eq!(alloc.free_frames(), total - 3);
    assert_eq!(sys_mmap(&mut ms, 0x1000, 0x1000, 0x1, &mut alloc), 0);
    assert_eq!(alloc.free_frames(), total - 4);
}

/// A 64-bit little-endian ELF image with the given load segments
/// `(flags, vaddr, mem_size, payload)`, payloads placed after the table.
fn elf_multi(segs: &[(u32, u64, u64, Vec<u8>)]) -> Vec<u8> {
    let phoff = 64usize;
    let data_off = phoff + 56 * segs.len();
    let total: usize = data_off + segs.iter().map(|s| s.3.len()).sum::<usize>();
    let mut v = vec![0u8; total];
    v[0..4].copy_from_slice(&[0x7f, b'E', b'L', b'F']);
    v[4] = 2;
    v[5] = 1;
    v[6] = 1;
    put_u64(&mut v, 24, 0x20000);
    put_u64(&mut v, 32, phoff as u64);
    put_u16(&mut v, 52, 64);
    put_u16(&mut v, 54, 56);
    put_u16(&mut v, 56, segs.len() as u16);
    let mut off = data_off;
    for (i, (flags, vaddr, mem, payload)) in segs.iter().enumerate() {
        let b = phoff + 56 * i;
        put_u32(&mut v, b, 1);
        put_u32(&mut v, b + 4, *flags);
        put_u64(&mut v, b + 8, off as u64);
        put_u64(&mut v, b + 16, *vaddr);
        put_u64(&mut v, b + 32, payload.len() as u64);
        put_u64(&mut v, b + 40, *mem);
        v[off..off + payload.len()].copy_from_slice(payload);
        off += payload.len();
    }
    v
}

#[test]
fn elf_image_at_odd_address_is_read() {
    let mut alloc = pool();
    let image = elf_image(1, 5, 0x10000, 0x3000, &[1, 2, 3]);
    let mut shifted = vec![0u8];
    shifted.extend_from_slice(&image);
    let (ms, sp, entry) = MemorySet::from_elf(&shifted[1..], 0x8020_0000, &mut alloc).unwrap();
    assert_eq!(entry, 0x10000);
    assert_eq!(sp, 0x16000);
    assert_eq!(ms.area_count(), 3);
}

#[test]
fn stack_goes_above_the_highest_segment() {
    let mut alloc = pool();
    let image = elf_multi(&[(6, 0x40000, 0x1000, vec![1]), (5, 0x10000, 0x2000, vec![2])]);
    let (ms, sp, entry) = MemorySet::from_elf(&image, 0x8020_0000, &mut alloc).unwrap();
    assert_eq!(entry, 0x20000);
    assert_eq!(ms.area_count(), 4);
    assert_eq!(ms.area(2).get_start(), VirtPageNum(0x42));
    assert_eq!(ms.area(2).get_end(), VirtPageNum(0x44));
    assert_eq!(sp, 0x44000);
    let data = ms.translate(VirtPageNum(0x40)).unwrap();
    assert!(data.readable() && data.writable() && data.PTE_U() && !data.executable());
}

#[test]
fn overlapping_segments_are_malformed() {
    let mut alloc = pool();
    let image = elf_multi(&[(4, 0x10000, 0x2000, vec![1]), (4, 0x11000, 0x1000, vec![2])]);
    let free = alloc.free_frames();
    assert_eq!(MemorySet::from_elf(&image, 0x8020_0000, &mut alloc).err(), Some(ElfError::Malformed));
    assert_eq!(alloc.free_frames(), free);
}

#[test]
fn small_pool_is_out_of_frames() {
    let mut alloc = StackFrameAllocator::new(PhysPageNum(0x80000), PhysPageNum(0x80010));
    let image = elf_image(1, 5, 0x10000, 0x3000, &[1, 2, 3]);
    assert_eq!(MemorySet::from_elf(&image, 0x8020_0000, &mut alloc).err(), Some(ElfError::OutOfFrames));
    assert_eq!(alloc.free_frames(), 16);
    let mut enough = StackFrameAllocator::new(PhysPageNum(0x80000), PhysPageNum(0x80015));
    assert!(MemorySet::from_elf(&image, 0x8020_0000, &mut enough).is_ok());
}

#[test]
fn elf32_image_is_malformed() {
    let mut alloc = pool();
    let mut image = elf_image(1, 5, 0x10000, 0x3000, &[1]);
    image[4] = 1;
    assert_eq!(MemorySet::from_elf(&image, 0x8020_0000, &mut alloc).err(), Some(ElfError::Malformed));
}

#[test]
fn elf_segment_bytes_are_loaded_and_rest_zeroed() {
    let mut alloc = pool();
    let payload: Vec<u8> = (0..0x1800u32).map(|i| (i % 251) as u8 + 1).collect();
    let image = elf_image(1, 6, 0x10000, 0x3000, &payload);
    let (ms, _, _) = MemorySet::from_elf(&image, 0x8020_0000, &mut alloc).unwrap();
    let seg = ms.area(0);
    let p0 = seg.page(VirtPageNum(0x10)).unwrap();
    assert_eq!(&p0[..], &payload[..0x1000]);
    let p1 = seg.page(VirtPageNum(0x11)).unwrap();
    assert_eq!(&p1[..0x800], &payload[0x1000..]);
    assert!(p1[0x800..].iter().all(|b| *b == 0));
    let p2 = seg.page(VirtPageNum(0x12)).unwrap();
    assert!(p2.iter().all(|b| *b == 0));
    assert!(seg.page(VirtPageNum(0x13)).is_none());
}

#[test]
fn short_pool_insert_changes_nothing() {
    let mut alloc = StackFrameAllocator::new(PhysPageNum(0x80000), PhysPageNum(0x80008));
    let mut ms = MemorySet::new_bare(&mut alloc);
    let free = alloc.free_frames();
    let (ok, _) = ms.insert_framed_area(VirtAddr(0x1000), VirtAddr(0x4000), MapPermission::from_bits(MAP_R | MAP_U), &mut alloc);
    assert!(!ok);
    assert_eq!(alloc.free_frames(), free);
    assert_eq!(ms.area_count(), 0);
    for vpn in 1..4u64 {
        assert!(ms.translate(VirtPageNum(vpn)).is_none());
    }
}

#[test]
fn second_map_fails_even_with_an_empty_pool() {
    let mut alloc = StackFrameAllocator::new(PhysPageNum(0x80000), PhysPageNum(0x80003));
    let mut pt = PageTable::new(&mut alloc);
    assert!(pt.map(VirtPageNum(9), PhysPageNum(0x100), PTEFlags::from_bits(PTE_R), &mut alloc));
    assert_eq!(alloc.free_frames(), 0);
    assert!(!pt.map(VirtPageNum(9), PhysPageNum(0x200), PTEFlags::from_bits(PTE_W), &mut alloc));
    assert_eq!(pt.translate(VirtPageNum(9)).unwrap().ppn(), PhysPageNum(0x100));
}
