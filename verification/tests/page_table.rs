use os_kernel::mm::address::{PhysPageNum, VirtAddr, VirtPageNum};
use os_kernel::mm::memory::PhysMemory;
use os_kernel::mm::page_table::{
    check_vpn_range_all_entry, check_vpn_range_no_entry, dump_flags, dump_page_table_level, flag_char,
    read_translated_byte, translated_byte_buffer, write_translated_byte, DumpLine, PTEFlags, PageSlice, PageTable,
    PageTableEntry,
};

fn urw() -> PTEFlags {
    PTEFlags { bits: PTEFlags::U | PTEFlags::R | PTEFlags::W }
}

#[test]
fn pte_fields() {
    let e = PageTableEntry::new(PhysPageNum(0x80), PTEFlags { bits: 23 });
    assert_eq!(e.bits, 0x20017);
    assert_eq!(e.ppn(), PhysPageNum(0x80));
    assert_eq!(e.flags(), PTEFlags { bits: 23 });
    assert!(e.is_valid() && e.readable() && e.writable() && e.user());
    assert!(!e.executable());
    let z = PageTableEntry::empty();
    assert_eq!(z.bits, 0);
    assert!(!z.is_valid());
}

#[test]
fn pte_ppn_keeps_44_bits() {
    let e = PageTableEntry { bits: u64::MAX };
    assert_eq!(e.ppn().0, (1u64 << 44) - 1);
    assert_eq!(e.flags().bits(), 0xff);
}

#[test]
fn pte_flags_operations() {
    let f = PTEFlags { bits: PTEFlags::R }.union(PTEFlags { bits: PTEFlags::W });
    assert_eq!(f.bits(), 6);
    assert!(f.contains(PTEFlags { bits: PTEFlags::W }));
    assert!(!f.contains(PTEFlags { bits: PTEFlags::X }));
    assert_eq!(f.intersection(PTEFlags { bits: PTEFlags::R }).bits, 2);
    assert_eq!(PTEFlags::empty().bits, 0);
    assert_eq!(PTEFlags::from_bits(0xff), Some(PTEFlags { bits: 0xff }));
}

#[test]
fn new_page_table_has_one_frame_and_no_entries() {
    let mut mem = PhysMemory::new();
    let pt = PageTable::new(&mut mem);
    assert_eq!(pt.root_ppn, PhysPageNum(0));
    assert_eq!(pt.frames, vec![PhysPageNum(0)]);
    assert_eq!(mem.frame_count(), 1);
    assert_eq!(pt.translate(&mem, VirtPageNum(0x12345)), None);
}

#[test]
fn map_then_translate_gives_the_entry() {
    let mut mem = PhysMemory::new();
    let mut pt = PageTable::new(&mut mem);
    pt.map(&mut mem, VirtPageNum(0x12345), PhysPageNum(0x80), urw());
    assert_eq!(mem.frame_count(), 3);
    assert_eq!(pt.frames, vec![PhysPageNum(0), PhysPageNum(1), PhysPageNum(2)]);
    let e = pt.translate(&mem, VirtPageNum(0x12345)).unwrap();
    assert_eq!(e.bits, (0x80 << 10) | 23);
    assert_eq!(e.ppn(), PhysPageNum(0x80));
    // a neighbour shares the last-level table: an empty entry, no new frame
    assert_eq!(pt.translate(&mem, VirtPageNum(0x12346)), Some(PageTableEntry::empty()));
    pt.map(&mut mem, VirtPageNum(0x12346), PhysPageNum(0x81), urw());
    assert_eq!(mem.frame_count(), 3);
    // page 0 shares the root entry only
    pt.map(&mut mem, VirtPageNum(0), PhysPageNum(0x82), urw());
    assert_eq!(mem.frame_count(), 4);
    assert_eq!(pt.translate(&mem, VirtPageNum(0x12345)).unwrap().ppn(), PhysPageNum(0x80));
    assert_eq!(pt.translate(&mem, VirtPageNum(0x12346)).unwrap().ppn(), PhysPageNum(0x81));
    assert_eq!(pt.translate(&mem, VirtPageNum(0)).unwrap().ppn(), PhysPageNum(0x82));
    assert_eq!(pt.translate(&mem, VirtPageNum(1 << 18)), None);
}

#[test]
fn unmap_leaves_an_empty_entry() {
    let mut mem = PhysMemory::new();
    let mut pt = PageTable::new(&mut mem);
    pt.map(&mut mem, VirtPageNum(7), PhysPageNum(0x90), urw());
    pt.map(&mut mem, VirtPageNum(8), PhysPageNum(0x91), urw());
    pt.unmap(&mut mem, VirtPageNum(7));
    let e = pt.translate(&mem, VirtPageNum(7)).unwrap();
    assert!(!e.is_valid());
    assert_eq!(e, PageTableEntry::empty());
    assert_eq!(pt.translate(&mem, VirtPageNum(8)).unwrap().ppn(), PhysPageNum(0x91));
    pt.map(&mut mem, VirtPageNum(7), PhysPageNum(0x92), urw());
    assert_eq!(pt.translate(&mem, VirtPageNum(7)).unwrap().ppn(), PhysPageNum(0x92));
}

#[test]
fn token_round_trip() {
    let mut mem = PhysMemory::new();
    mem.frame_alloc();
    let pt = PageTable::new(&mut mem);
    assert_eq!(pt.token(), (8u64 << 60) | 1);
    let again = PageTable::from_token(pt.token());
    assert_eq!(again.root_ppn, PhysPageNum(1));
    assert!(again.frames.is_empty());
}

fn user_space() -> (PhysMemory, PageTable, u64, u64) {
    let mut mem = PhysMemory::new();
    let mut pt = PageTable::new(&mut mem);
    let d1 = mem.frame_alloc();
    let d2 = mem.frame_alloc();
    pt.map(&mut mem, VirtPageNum(5), d1, urw());
    pt.map(&mut mem, VirtPageNum(6), d2, urw());
    pt.map(&mut mem, VirtPageNum(9), d1, PTEFlags { bits: PTEFlags::R | PTEFlags::W });
    pt.map(&mut mem, VirtPageNum(10), d1, PTEFlags { bits: PTEFlags::U | PTEFlags::R });
    (mem, pt, d1.0, d2.0)
}

#[test]
fn write_then_read_a_user_byte() {
    let (mut mem, pt, _, _) = user_space();
    let token = pt.token();
    assert_eq!(write_translated_byte(&mut mem, token, 5 * 4096 + 7, 0xab), 0);
    assert_eq!(read_translated_byte(&mem, token, 5 * 4096 + 7), 0xab);
    assert_eq!(read_translated_byte(&mem, token, 5 * 4096 + 8), 0);
    // bits above the 39-bit address space are ignored
    assert_eq!(read_translated_byte(&mem, token, (1u64 << 39) + 5 * 4096 + 7), 0xab);
    // page 10 maps the same frame, readable only
    assert_eq!(read_translated_byte(&mem, token, 10 * 4096 + 7), 0xab);
    assert_eq!(write_translated_byte(&mut mem, token, 10 * 4096 + 7, 1), -1);
    assert_eq!(read_translated_byte(&mem, token, 5 * 4096 + 7), 0xab);
}

#[test]
fn user_access_refused() {
    let (mut mem, pt, _, _) = user_space();
    let token = pt.token();
    // not user-accessible
    assert_eq!(read_translated_byte(&mem, token, 9 * 4096), -1);
    assert_eq!(write_translated_byte(&mut mem, token, 9 * 4096, 1), -1);
    // an empty entry in an existing table
    assert_eq!(read_translated_byte(&mem, token, 7 * 4096), -1);
    // no table at all
    assert_eq!(read_translated_byte(&mem, token, 1 << 30), -1);
}

#[test]
fn byte_buffer_across_a_page_boundary() {
    let (mem, pt, d1, d2) = user_space();
    let v = translated_byte_buffer(&mem, pt.token(), 5 * 4096 + 4090, 16);
    assert_eq!(
        v,
        vec![
            PageSlice { ppn: PhysPageNum(d1), start: 4090, end: 4096 },
            PageSlice { ppn: PhysPageNum(d2), start: 0, end: 10 },
        ]
    );
    let w = translated_byte_buffer(&mem, pt.token(), 6 * 4096, 4096);
    assert_eq!(w, vec![PageSlice { ppn: PhysPageNum(d2), start: 0, end: 4096 }]);
    assert!(translated_byte_buffer(&mem, pt.token(), 6 * 4096, 0).is_empty());
}

#[test]
fn range_checks() {
    let (mem, pt, _, _) = user_space();
    let token = pt.token();
    assert!(check_vpn_range_all_entry(&mem, token, VirtAddr(5 * 4096), VirtAddr(7 * 4096)));
    assert!(!check_vpn_range_no_entry(&mem, token, VirtAddr(5 * 4096), VirtAddr(7 * 4096)));
    assert!(!check_vpn_range_all_entry(&mem, token, VirtAddr(5 * 4096), VirtAddr(7 * 4096 + 1)));
    assert!(check_vpn_range_no_entry(&mem, token, VirtAddr(7 * 4096), VirtAddr(9 * 4096)));
    assert!(check_vpn_range_no_entry(&mem, token, VirtAddr(1 << 30), VirtAddr((1 << 30) + 3 * 4096)));
    // an empty range
    assert!(check_vpn_range_all_entry(&mem, token, VirtAddr(7 * 4096), VirtAddr(7 * 4096)));
}

#[test]
fn dump_lists_the_path_to_each_leaf() {
    let mut mem = PhysMemory::new();
    let mut pt = PageTable::new(&mut mem);
    let d = mem.frame_alloc();
    pt.map(&mut mem, VirtPageNum(5), d, urw());
    let lines = dump_page_table_level(&mem, pt.root_ppn, 2, 0);
    assert_eq!(
        lines,
        vec![
            DumpLine::Entry { level: 2, idx: 0, bits: (2 << 10) | 1, ppn: 2 },
            DumpLine::Entry { level: 1, idx: 0, bits: (3 << 10) | 1, ppn: 3 },
            DumpLine::Entry { level: 0, idx: 5, bits: (1 << 10) | 23, ppn: 1 },
            DumpLine::Leaf { va_start: 5 * 4096, va_end: 6 * 4096, pa_start: 4096, pa_end: 8192 },
        ]
    );
}

#[test]
fn dump_flags_letters() {
    assert_eq!(dump_flags(PTEFlags { bits: 23 }), ['V', 'R', 'W', '-', 'U', '-', '-', '-']);
    assert_eq!(dump_flags(PTEFlags { bits: 0xff }), ['V', 'R', 'W', 'X', 'U', 'G', 'A', 'D']);
    assert_eq!(flag_char(true, 'X'), 'X');
    assert_eq!(flag_char(false, 'X'), '-');
}

#[test]
fn addresses() {
    assert_eq!(VirtAddr::from_raw((1 << 39) + 5), VirtAddr(5));
    assert_eq!(VirtAddr(8193).floor(), VirtPageNum(2));
    assert_eq!(VirtAddr(8193).page_offset(), 1);
    assert_eq!(VirtAddr::from_vpn(VirtPageNum(3)), VirtAddr(12288));
    assert_eq!(VirtPageNum(0x12345).indexes(), [0, 145, 325]);
    assert_eq!(VirtPageNum((3 << 18) | (4 << 9) | 5).indexes(), [3, 4, 5]);
    let mut v = VirtPageNum(9);
    v.step();
    assert_eq!(v, VirtPageNum(10));
    assert_eq!(PhysPageNum::from_raw(u64::MAX), PhysPageNum((1 << 44) - 1));
}

#[test]
fn memory_bytes_and_words() {
    let mut mem = PhysMemory::new();
    let f = mem.frame_alloc();
    mem.write_word(f.0, 1, 0x1122_3344_5566_7788);
    assert_eq!(mem.read_byte(f.0, 8), 0x88);
    assert_eq!(mem.read_byte(f.0, 15), 0x11);
    mem.write_byte(f.0, 9, 0xff);
    assert_eq!(mem.read_word(f.0, 1), 0x1122_3344_5566_ff88);
    assert_eq!(mem.read_word(f.0, 0), 0);
}

#[test]
fn entry_without_valid_bit_is_refused() {
    let (mut mem, pt, d1, _) = user_space();
    let token = pt.token();
    // page 11: user, readable and writable, but not valid
    let leaf_table = pt.frames[2].0;
    mem.write_word(leaf_table, 11, (d1 << 10) | 22);
    assert!(!pt.translate(&mem, VirtPageNum(11)).unwrap().is_valid());
    assert_eq!(read_translated_byte(&mem, token, 11 * 4096 + 3), -1);
    assert_eq!(write_translated_byte(&mut mem, token, 11 * 4096 + 3, 9), -1);
    assert_eq!(read_translated_byte(&mem, token, 5 * 4096 + 3), 0);
}

#[test]
fn map_writes_only_the_walk() {
    let mut mem = PhysMemory::new();
    let mut pt = PageTable::new(&mut mem);
    let d = mem.frame_alloc();
    mem.write_word(d.0, 3, 77);
    pt.map(&mut mem, VirtPageNum(5), PhysPageNum(0x80), urw());
    assert_eq!(mem.frame_count(), 4);
    assert_eq!(mem.read_word(d.0, 3), 77);
    // the new tables are linked with entries holding only V
    assert_eq!(mem.read_word(0, 0), (2 << 10) | 1);
    assert_eq!(mem.read_word(2, 0), (3 << 10) | 1);
    for i in 1..512 {
        assert_eq!(mem.read_word(0, i), 0);
        assert_eq!(mem.read_word(2, i), 0);
    }
}
