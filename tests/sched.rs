use rcore_mm::fs::{OpenFlags, O_CREATE, O_RDWR, O_WRONLY};
use rcore_mm::page_table::{translated_byte_buffer, user_buffer_writable, PTEFlags, PageTable, PTE_R, PTE_U, PTE_W};
use rcore_mm::process::{sys_get_time, sys_task_info, TaskControlBlock};
use rcore_mm::address::{PhysPageNum, VirtAddr, VirtPageNum};
use rcore_mm::frame_allocator::StackFrameAllocator;
use rcore_mm::memory_set::{MapPermission, MemorySet, MAP_R, MAP_U, MAP_W};
use rcore_mm::process::TaskStatus;
use rcore_mm::syscall::{used_map, used_unmap};
use rcore_mm::task::{find_next_task, ReadyTask, TaskManager, BIG_STRIDE};

#[test]
fn stride_scheduler_picks_least_stride() {
    let mut m = TaskManager::new();
    assert_eq!(m.fetch(), None);
    m.add(ReadyTask { pid: 1, stride: 30, priority: 2 });
    m.add(ReadyTask { pid: 2, stride: 10, priority: 5 });
    m.add(ReadyTask { pid: 3, stride: 20, priority: 16 });
    m.add(ReadyTask { pid: 4, stride: 10, priority: 10 });
    let t = m.fetch().unwrap();
    assert_eq!(t.pid, 4);
    assert_eq!(t.stride, 10 + BIG_STRIDE / 10);
    let order: Vec<usize> = m.ready_queue.iter().map(|t| t.pid).collect();
    assert_eq!(order, vec![2, 3, 1]);
    assert_eq!(m.fetch().unwrap().pid, 2);
    let order: Vec<usize> = m.ready_queue.iter().map(|t| t.pid).collect();
    assert_eq!(order, vec![3, 1]);
}

#[test]
fn round_robin_finds_next_ready_task() {
    let s = vec![TaskStatus::Ready, TaskStatus::Exited, TaskStatus::Running, TaskStatus::Ready];
    assert_eq!(find_next_task(&s, 0), Some(3));
    assert_eq!(find_next_task(&s, 3), Some(0));
    assert_eq!(find_next_task(&s, 1), Some(3));
    let t = vec![TaskStatus::Running, TaskStatus::Exited];
    assert_eq!(find_next_task(&t, 0), None);
    let u = vec![TaskStatus::Ready];
    assert_eq!(find_next_task(&u, 0), Some(0));
}

#[test]
fn legacy_map_refuses_overlap() {
    let mut alloc = StackFrameAllocator::new(PhysPageNum(0x80000), PhysPageNum(0x81000));
    let mut ms = MemorySet::new_bare(&mut alloc);
    let perm = MapPermission::from_bits(MAP_R | MAP_W | MAP_U);
    assert!(used_map(&mut ms, VirtAddr(0x4000), VirtAddr(0x6000), perm, &mut alloc));
    assert!(!used_map(&mut ms, VirtAddr(0x5000), VirtAddr(0x7000), perm, &mut alloc));
    assert_eq!(ms.area_count(), 1);
    assert!(!used_unmap(&mut ms, VirtAddr(0x8000), VirtAddr(0x9000), &mut alloc));
    assert!(used_unmap(&mut ms, VirtAddr(0x4000), VirtAddr(0x6000), &mut alloc));
    assert_eq!(ms.area_count(), 0);
    assert!(ms.translate(VirtPageNum(4)).is_none());
}

#[test]
fn user_buffer_splits_at_page_boundaries() {
    let mut alloc = StackFrameAllocator::new(PhysPageNum(0x80000), PhysPageNum(0x81000));
    let mut pt = PageTable::new(&mut alloc);
    let f = PTEFlags::from_bits(PTE_R | PTE_W | PTE_U);
    assert!(pt.map(VirtPageNum(0x10), PhysPageNum(0x900), f, &mut alloc));
    assert!(pt.map(VirtPageNum(0x11), PhysPageNum(0x700), f, &mut alloc));
    let chunks = translated_byte_buffer(&pt, 0x10ff0, 0x20).unwrap();
    assert_eq!(chunks, vec![(PhysPageNum(0x900), 0xff0, 0x1000), (PhysPageNum(0x700), 0, 0x10)]);
    let whole = translated_byte_buffer(&pt, 0x11000, 0x1000).unwrap();
    assert_eq!(whole, vec![(PhysPageNum(0x700), 0, 0x1000)]);
    assert!(translated_byte_buffer(&pt, 0x11ff0, 0x20).is_none());
    assert_eq!(translated_byte_buffer(&pt, 0x50000, 0).unwrap(), vec![]);
}

#[test]
fn time_and_task_info() {
    let tv = sys_get_time(3_250_000);
    assert_eq!((tv.sec, tv.usec), (3, 250_000));
    let t = TaskControlBlock {
        pid: 1,
        task_status: TaskStatus::Running,
        priority: 16,
        exit_code: 0,
        syscall_times: vec![1, 0, 4],
        task_first_invoked_time: 1_000,
    };
    let info = sys_task_info(&t, 26_000);
    assert_eq!(info.status, TaskStatus::Running);
    assert_eq!(info.syscall_times, vec![1, 0, 4]);
    assert_eq!(info.time, 25);
}

#[test]
fn open_flags_read_write() {
    assert_eq!(OpenFlags { bits: 0 }.read_write(), (true, false));
    assert_eq!(OpenFlags { bits: O_WRONLY | O_CREATE }.read_write(), (false, true));
    assert_eq!(OpenFlags { bits: O_RDWR }.read_write(), (true, true));
}

#[test]
fn write_buffer_needs_user_writable_pages() {
    let mut alloc = StackFrameAllocator::new(PhysPageNum(0x80000), PhysPageNum(0x81000));
    let mut pt = PageTable::new(&mut alloc);
    assert!(pt.map(VirtPageNum(0x10), PhysPageNum(0x900), PTEFlags::from_bits(PTE_R | PTE_W | PTE_U), &mut alloc));
    assert!(pt.map(VirtPageNum(0x11), PhysPageNum(0x901), PTEFlags::from_bits(PTE_R | PTE_U), &mut alloc));
    assert!(pt.map(VirtPageNum(0x12), PhysPageNum(0x902), PTEFlags::from_bits(PTE_R | PTE_W), &mut alloc));
    assert!(user_buffer_writable(&pt, 0x10010, 0x100));
    assert!(!user_buffer_writable(&pt, 0x10010, 0x1000));
    assert!(!user_buffer_writable(&pt, 0x12000, 0x10));
    assert!(!user_buffer_writable(&pt, 0x13000, 0x10));
}
