use rcore_mm::deadlock::detect_deadlock;
use rcore_mm::process::{
    sys_condvar_create, sys_condvar_signal, sys_condvar_wait, sys_enable_deadlock_detect, sys_exit, sys_getpid,
    sys_mutex_create, sys_mutex_lock, sys_mutex_unlock, sys_semaphore_create, sys_semaphore_down,
    sys_semaphore_up, sys_set_priority, sys_waitpid, sys_yield, ChildInfo, LockOutcome, MutexKind,
    ProcessResources, TaskControlBlock, TaskStatus,
};
use rcore_mm::sync::{Mutex, MutexBlocking, MutexSpin, Semaphore, ThreadResources};

fn thread(n_mtx: usize, n_sem: usize) -> ThreadResources {
    ThreadResources {
        mtx_need: vec![0; n_mtx],
        mtx_allocation: vec![0; n_mtx],
        sem_need: vec![0; n_sem],
        sem_allocation: vec![0; n_sem],
    }
}

fn process(threads: usize) -> ProcessResources {
    ProcessResources {
        mutex_list: Vec::new(),
        semaphore_list: Vec::new(),
        condvar_list: Vec::new(),
        threads: (0..threads).map(|_| thread(0, 0)).collect(),
        enable_detect: 0,
    }
}

fn task(pid: usize) -> TaskControlBlock {
    TaskControlBlock {
        pid,
        task_status: TaskStatus::Running,
        priority: 16,
        exit_code: 0,
        syscall_times: vec![0; 4],
        task_first_invoked_time: 0,
    }
}

#[test]
fn safe_state_is_deadlock_free() {
    let avail = vec![1, 0];
    let need = vec![vec![0, 1], vec![1, 0]];
    let alloc = vec![vec![1, 0], vec![0, 1]];
    assert!(detect_deadlock(&avail, &need, &alloc));
}

#[test]
fn circular_wait_is_a_deadlock() {
    let avail = vec![0, 0];
    let need = vec![vec![0, 1], vec![1, 0]];
    let alloc = vec![vec![1, 0], vec![0, 1]];
    assert!(!detect_deadlock(&avail, &need, &alloc));
}

#[test]
fn finishing_order_may_need_several_passes() {
    let avail = vec![0];
    let need = vec![vec![2], vec![1], vec![0]];
    let alloc = vec![vec![0], vec![1], vec![1]];
    assert!(detect_deadlock(&avail, &need, &alloc));
    assert!(detect_deadlock(&vec![], &vec![], &vec![]));
}

#[test]
fn semaphore_counts_and_queues() {
    let mut s = Semaphore::new(1, 0);
    let mut threads = vec![thread(0, 1), thread(0, 1)];
    assert!(!s.down(0));
    assert!(s.down(1));
    assert_eq!(s.inner.count, -1);
    s.update(&mut threads[0]);
    assert_eq!(threads[0].sem_need[0], 1);
    threads[1].sem_need[0] = 1;
    assert_eq!(s.up(&mut threads), Some(1));
    assert_eq!(threads[1].sem_allocation[0], 1);
    assert_eq!(threads[1].sem_need[0], 0);
    assert_eq!(s.inner.count, 0);
    assert_eq!(s.up(&mut threads), None);
    assert_eq!(s.inner.count, 1);
}

#[test]
fn spin_and_blocking_mutexes() {
    let mut t = thread(1, 0);
    let mut m = MutexSpin::new(0);
    assert_eq!(m.islocked(), 1);
    assert!(m.lock(&mut t));
    assert_eq!(t.mtx_allocation[0], 1);
    assert_eq!(m.islocked(), 0);
    assert!(!m.lock(&mut t));
    m.unlock(&mut t);
    assert_eq!(t.mtx_allocation[0], 0);
    let mut threads = vec![thread(1, 0), thread(1, 0)];
    let mut b = MutexBlocking::new(0);
    assert!(!b.lock(0));
    assert!(b.lock(1));
    assert_eq!(b.unlock(0, &mut threads), Some(1));
    assert_eq!(threads[1].mtx_allocation[0], 1);
    assert_eq!(b.islocked(), 0);
    assert_eq!(b.unlock(1, &mut threads), None);
    assert_eq!(b.islocked(), 1);
}

#[test]
fn semaphore_ids_reuse_free_slots() {
    let mut p = process(1);
    assert_eq!(sys_semaphore_create(&mut p, 2), 0);
    assert_eq!(sys_semaphore_create(&mut p, 0), 1);
    p.semaphore_list[0] = None;
    assert_eq!(sys_semaphore_create(&mut p, 5), 0);
    assert_eq!(p.semaphore_list[0].as_ref().unwrap().inner.count, 5);
    assert_eq!(p.semaphore_list.len(), 2);
}

#[test]
fn semaphore_down_detects_deadlock() {
    let mut p = process(2);
    p.threads = vec![thread(0, 1), thread(0, 1)];
    assert_eq!(sys_semaphore_create(&mut p, 0), 0);
    p.threads[0].sem_need[0] = 1;
    p.threads[1].sem_need[0] = 1;
    assert_eq!(sys_enable_deadlock_detect(&mut p, 1), 1);
    assert_eq!(sys_semaphore_down(&mut p, 0, 0), (-0xDEAD, false));
    assert_eq!(p.semaphore_list[0].as_ref().unwrap().inner.count, 0);
    assert_eq!(sys_enable_deadlock_detect(&mut p, 0), 1);
    assert_eq!(sys_semaphore_down(&mut p, 0, 0), (0, true));
    assert_eq!(sys_enable_deadlock_detect(&mut p, 7), -1);
    assert_eq!(p.enable_detect, 0);
    assert_eq!(sys_semaphore_up(&mut p, 0), (0, Some(0)));
}

#[test]
fn mutex_create_grows_thread_tables() {
    let mut p = process(2);
    assert_eq!(sys_mutex_create(&mut p, false), 0);
    assert_eq!(sys_mutex_create(&mut p, true), 1);
    assert_eq!(p.threads[0].mtx_allocation.len(), 2);
    assert_eq!(p.threads[1].mtx_need, vec![0, 0]);
    assert!(matches!(p.mutex_list[1], Some(MutexKind::Blocking(_))));
    assert_eq!(sys_mutex_lock(&mut p, 0, 0), (0, LockOutcome::Acquired));
    assert_eq!(sys_mutex_lock(&mut p, 0, 1), (0, LockOutcome::Retry));
    assert_eq!(sys_mutex_unlock(&mut p, 0, 0), (0, None));
    assert_eq!(sys_mutex_lock(&mut p, 1, 0), (0, LockOutcome::Acquired));
    assert_eq!(sys_mutex_lock(&mut p, 1, 1), (0, LockOutcome::Blocked));
    assert_eq!(sys_mutex_unlock(&mut p, 1, 0), (0, Some(1)));
}

#[test]
fn condvar_wait_and_signal() {
    let mut p = process(2);
    assert_eq!(sys_mutex_create(&mut p, true), 0);
    assert_eq!(sys_condvar_create(&mut p), 0);
    assert_eq!(sys_mutex_lock(&mut p, 0, 0), (0, LockOutcome::Acquired));
    assert_eq!(sys_condvar_wait(&mut p, 0, 0, 0), (0, None));
    assert_eq!(sys_condvar_signal(&mut p, 0), (0, Some(0)));
    assert_eq!(sys_condvar_signal(&mut p, 0), (0, None));
}

#[test]
fn waitpid_reports_children() {
    let mut children = vec![
        ChildInfo { pid: 3, zombie: false, exit_code: 0 },
        ChildInfo { pid: 4, zombie: true, exit_code: 9 },
    ];
    assert_eq!(sys_waitpid(&mut children, 7), (-1, None));
    assert_eq!(sys_waitpid(&mut children, 3), (-2, None));
    assert_eq!(sys_waitpid(&mut children, -1), (4, Some(9)));
    assert_eq!(children.len(), 1);
    assert_eq!(sys_waitpid(&mut children, -1), (-2, None));
}

#[test]
fn task_calls_update_the_task() {
    let mut t = task(5);
    assert_eq!(sys_getpid(&t), 5);
    assert_eq!(sys_set_priority(&mut t, 1), -1);
    assert_eq!(t.priority, 1);
    assert_eq!(sys_set_priority(&mut t, 8), 8);
    assert_eq!(sys_yield(&mut t), 0);
    assert_eq!(t.task_status, TaskStatus::Ready);
    sys_exit(&mut t, 3);
    assert_eq!(t.task_status, TaskStatus::Exited);
    assert_eq!(t.exit_code, 3);
}
