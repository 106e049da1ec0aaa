use os_kernel::mm::address::VirtPageNum;
use os_kernel::mm::memory::PhysMemory;
use os_kernel::mm::page_table::{read_translated_byte, PTEFlags, PageTable};
use os_kernel::syscall::process::{sys_get_time, sys_sbrk, sys_trace, TimeVal};
use os_kernel::syscall::{syscall, Syscall, SyscallKind};

#[test]
fn syscall_kinds_from_numbers() {
    assert_eq!(SyscallKind::from_syscall_number(64), Some(SyscallKind::Write));
    assert_eq!(SyscallKind::from_syscall_number(93), Some(SyscallKind::Exit));
    assert_eq!(SyscallKind::from_syscall_number(124), Some(SyscallKind::Yield));
    assert_eq!(SyscallKind::from_syscall_number(169), Some(SyscallKind::GetTime));
    assert_eq!(SyscallKind::from_syscall_number(214), Some(SyscallKind::Sbrk));
    assert_eq!(SyscallKind::from_syscall_number(215), Some(SyscallKind::Munmap));
    assert_eq!(SyscallKind::from_syscall_number(222), Some(SyscallKind::Mmap));
    assert_eq!(SyscallKind::from_syscall_number(410), Some(SyscallKind::Trace));
    assert_eq!(SyscallKind::from_syscall_number(1), None);
}

#[test]
fn syscall_kind_indexes() {
    assert_eq!(SyscallKind::COUNT, 8);
    assert_eq!(SyscallKind::Write.as_index(), 0);
    assert_eq!(SyscallKind::GetTime.as_index(), 3);
    assert_eq!(SyscallKind::Trace.as_index(), 7);
}

#[test]
fn syscall_decodes_arguments() {
    assert_eq!(syscall(64, [1, 0x1000, 5]), Some(Syscall::Write { fd: 1, buf: 0x1000, len: 5 }));
    assert_eq!(syscall(93, [0x1_0000_0005, 0, 0]), Some(Syscall::Exit { exit_code: 5 }));
    assert_eq!(syscall(93, [0xffff_ffff, 0, 0]), Some(Syscall::Exit { exit_code: -1 }));
    assert_eq!(syscall(124, [0, 0, 0]), Some(Syscall::Yield));
    assert_eq!(syscall(169, [0x2000, 3, 0]), Some(Syscall::GetTime { ts: 0x2000, tz: 3 }));
    assert_eq!(syscall(410, [1, 2, 3]), Some(Syscall::Trace { trace_request: 1, id: 2, data: 3 }));
    assert_eq!(syscall(222, [0x1000, 4096, 3]), Some(Syscall::Mmap { start: 0x1000, len: 4096, prot: 3 }));
    assert_eq!(syscall(215, [0x1000, 4096, 0]), Some(Syscall::Munmap { start: 0x1000, len: 4096 }));
    assert_eq!(syscall(214, [(-4096i64) as u64 as usize, 0, 0]), Some(Syscall::Sbrk { size: -4096 }));
    assert_eq!(syscall(999, [0, 0, 0]), None);
}

#[test]
fn sbrk_result() {
    assert_eq!(sys_sbrk(Some(0x4000)), 0x4000);
    assert_eq!(sys_sbrk(None), -1);
}

fn user_space() -> (PhysMemory, PageTable) {
    let mut mem = PhysMemory::new();
    let mut pt = PageTable::new(&mut mem);
    let d1 = mem.frame_alloc();
    let d2 = mem.frame_alloc();
    let urw = PTEFlags { bits: PTEFlags::U | PTEFlags::R | PTEFlags::W };
    pt.map(&mut mem, VirtPageNum(5), d1, urw);
    pt.map(&mut mem, VirtPageNum(6), d2, urw);
    (mem, pt)
}

#[test]
fn trace_requests() {
    let (mut mem, pt) = user_space();
    let token = pt.token();
    let addr = 5 * 4096 + 100;
    assert_eq!(sys_trace(&mut mem, token, 1, addr, 0x1_2345, 0), 0);
    assert_eq!(sys_trace(&mut mem, token, 0, addr, 0, 0), 0x45);
    assert_eq!(sys_trace(&mut mem, token, 2, 64, 0, 7), 7);
    assert_eq!(sys_trace(&mut mem, token, 3, addr, 0, 7), -1);
    assert_eq!(sys_trace(&mut mem, token, 0, 8 * 4096, 0, 0), -1);
    assert_eq!(sys_trace(&mut mem, token, 1, 8 * 4096, 1, 0), -1);
}

#[test]
fn time_val_from_microseconds() {
    let tv = TimeVal::from_us(3_500_000);
    assert_eq!(tv, TimeVal { sec: 3, usec: 500_000 });
    let b = tv.to_bytes();
    assert_eq!(b, vec![3, 0, 0, 0, 0, 0, 0, 0, 0x20, 0xa1, 0x07, 0, 0, 0, 0, 0]);
}

#[test]
fn get_time_across_a_page_boundary() {
    let (mut mem, pt) = user_space();
    let token = pt.token();
    let ts = 5 * 4096 + 4090;
    assert_eq!(sys_get_time(&mut mem, token, ts, 3_500_000), 0);
    let expect: [isize; 16] = [3, 0, 0, 0, 0, 0, 0, 0, 0x20, 0xa1, 0x07, 0, 0, 0, 0, 0];
    for (i, e) in expect.iter().enumerate() {
        assert_eq!(read_translated_byte(&mem, token, ts + i as u64), *e);
    }
}

#[test]
fn trace_refuses_an_entry_without_valid_bit() {
    let (mut mem, pt) = user_space();
    let token = pt.token();
    let leaf_table = pt.frames[2].0;
    mem.write_word(leaf_table, 12, (1u64 << 10) | 22);
    assert_eq!(sys_trace(&mut mem, token, 1, 12 * 4096, 7, 0), -1);
    assert_eq!(sys_trace(&mut mem, token, 0, 12 * 4096, 0, 0), -1);
}
