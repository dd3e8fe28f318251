//! Process-level system calls: the decisions of the process, thread and
//! synchronisation calls, taken on the explicitly passed state of the
//! calling process and thread. The caller performs what a result asks for:
//! blocking the caller, waking a thread, switching tasks.
use vstd::prelude::*;
use crate::sync::{Condvar, MutexBlocking, MutexSpin, Semaphore, ThreadResources, mtx_slot};
use crate::deadlock::{all_marked, deadlock_free, detect_deadlock, held_by, rows};

verus! {

/// Number of distinct system call ids.
pub const MAX_SYSCALL_NUM: usize = 500;

/// Scheduling state of a task.
#[derive(Clone, Copy, Debug, PartialEq, Eq, Structural)]
pub enum TaskStatus {
    UnInit,
    Ready,
    Running,
    Exited,
}

/// What the kernel keeps of one task for these calls.
pub struct TaskControlBlock {
    pub pid: usize,
    pub task_status: TaskStatus,
    pub priority: isize,
    pub exit_code: i32,
    pub syscall_times: Vec<u32>,
    pub task_first_invoked_time: usize,
}

/// A time of day, as seconds and microseconds.
#[derive(Clone, Copy, Debug, PartialEq, Eq, Structural)]
pub struct TimeVal {
    pub sec: usize,
    pub usec: usize,
}

/// What `task_info` reports of a task.
pub struct TaskInfo {
    pub status: TaskStatus,
    pub syscall_times: Vec<u32>,
    pub time: usize,
}

/// A child process as its parent sees it.
#[derive(Clone, Copy, Debug, PartialEq, Eq, Structural)]
pub struct ChildInfo {
    pub pid: usize,
    pub zombie: bool,
    pub exit_code: i32,
}

/// A mutex of either kind.
pub enum MutexKind {
    Spin(MutexSpin),
    Blocking(MutexBlocking),
}

/// The synchronisation state of one process.
pub struct ProcessResources {
    pub mutex_list: Vec<Option<MutexKind>>,
    pub semaphore_list: Vec<Option<Semaphore>>,
    pub condvar_list: Vec<Option<Condvar>>,
    pub threads: Vec<ThreadResources>,
    pub enable_detect: usize,
}

/// Index of the first empty slot of `s`, or its length where there is none.
pub open spec fn first_free<T>(s: Seq<Option<T>>) -> int {
    if exists|i: int| 0 <= i < s.len() && #[trigger] s[i] is None {
        choose|i: int| 0 <= i < s.len() && #[trigger] s[i] is None && forall|j: int| 0 <= j < i ==> s[j] is Some
    } else {
        s.len() as int
    }
}

/// The first empty slot of `v`, or its length where there is none.
pub fn find_free_slot<T>(v: &Vec<Option<T>>) -> (r: usize)
    ensures
        r == first_free(v@),
        r <= v@.len(),
        r < v@.len() ==> v@[r as int] is None,
{
    let mut i: usize = 0;
    while i < v.len()
        invariant
            0 <= i <= v@.len(),
            forall|j: int| 0 <= j < i ==> v@[j] is Some,
        decreases v@.len() - i,
    {
        if v[i].is_none() {
            proof {
                let k = choose|k: int| 0 <= k < v@.len() && #[trigger] v@[k] is None && forall|j: int| 0 <= j < k ==> v@[j] is Some;
                if k < i {
                    assert(v@[k] is Some);
                } else if k > i {
                    assert(v@[i as int] is Some);
                }
            }
            return i;
        }
        i = i + 1;
    }
    i
}

/// Lets the calling task give up the processor: it becomes ready, and the
/// caller switches to the next task. Returns 0.
pub fn sys_yield(task: &mut TaskControlBlock) -> (r: isize)
    ensures
        r == 0,
        final(task).task_status == TaskStatus::Ready,
        final(task).pid == old(task).pid,
        final(task).priority == old(task).priority,
{
    task.task_status = TaskStatus::Ready;
    0
}

/// Ends the calling task with `exit_code`: it becomes exited, and the
/// caller switches to the next task.
pub fn sys_exit(task: &mut TaskControlBlock, exit_code: i32)
    ensures
        final(task).task_status == TaskStatus::Exited,
        final(task).exit_code == exit_code,
        final(task).pid == old(task).pid,
{
    task.task_status = TaskStatus::Exited;
    task.exit_code = exit_code;
}

/// Process id of the calling task.
pub fn sys_getpid(task: &TaskControlBlock) -> (r: isize)
    requires
        task.pid <= isize::MAX,
    ensures
        r == task.pid,
{
    task.pid as isize
}

/// Sets the priority of the calling task to `prio`; returns `prio` where
/// it is at least 2 and -1 otherwise. The priority is stored either way.
pub fn sys_set_priority(task: &mut TaskControlBlock, prio: isize) -> (r: isize)
    ensures
        r == if prio >= 2 { prio } else { -1isize },
        final(task).priority == prio,
        final(task).pid == old(task).pid,
        final(task).task_status == old(task).task_status,
{
    let mut ret: isize = -1;
    if prio >= 2 {
        ret = prio;
    }
    task.priority = prio;
    ret
}

/// Whether child `c` is one that `waitpid(pid)` waits for: any child for
/// -1, else the child with that process id.
pub open spec fn wanted(c: ChildInfo, pid: isize) -> bool {
    pid == -1 || pid as int == c.pid as int
}

/// Waits for a child: -1 where no child is wanted; -2 where no wanted
/// child has exited yet; otherwise the first wanted child that has exited
/// is removed and its pid and exit code returned.
pub fn sys_waitpid(children: &mut Vec<ChildInfo>, pid: isize) -> (r: (isize, Option<i32>))
    requires
        forall|i: int| 0 <= i < old(children)@.len() ==> #[trigger] old(children)@[i].pid <= isize::MAX,
    ensures
        !(exists|i: int| 0 <= i < old(children)@.len() && #[trigger] wanted(old(children)@[i], pid)) ==> r == (-1isize, None::<i32>)
            && final(children)@ == old(children)@,
        (exists|i: int| 0 <= i < old(children)@.len() && #[trigger] wanted(old(children)@[i], pid))
            && !(exists|i: int| 0 <= i < old(children)@.len() && wanted(old(children)@[i], pid) && #[trigger] old(children)@[i].zombie)
            ==> r == (-2isize, None::<i32>) && final(children)@ == old(children)@,
        r.0 >= 0 ==> exists|k: int| {
            &&& 0 <= k < old(children)@.len()
            &&& wanted(old(children)@[k], pid) && old(children)@[k].zombie
            &&& forall|j: int| 0 <= j < k ==> !(wanted(#[trigger] old(children)@[j], pid) && old(children)@[j].zombie)
            &&& r == (old(children)@[k].pid as isize, Some(old(children)@[k].exit_code))
            &&& final(children)@ == old(children)@.remove(k)
        },
        r.0 == -1 || r.0 == -2 || r.0 >= 0,
        (exists|i: int| 0 <= i < old(children)@.len() && wanted(old(children)@[i], pid) && #[trigger] old(children)@[i].zombie) ==> r.0 >= 0,
{
    let mut any = false;
    let mut i: usize = 0;
    while i < children.len()
        invariant
            0 <= i <= children@.len(),
            any == exists|j: int| 0 <= j < i && #[trigger] wanted(children@[j], pid),
        decreases children@.len() - i,
    {
        if pid == -1 || pid as usize == children[i].pid && pid >= 0 {
            any = true;
        }
        proof {
            if wanted(children@[i as int], pid) {
                assert(any);
            }
        }
        i = i + 1;
    }
    if !any {
        return (-1, None);
    }
    let mut k: usize = 0;
    while k < children.len()
        invariant
            0 <= k <= children@.len(),
            children@ == old(children)@,
            exists|j: int| 0 <= j < children@.len() && #[trigger] wanted(children@[j], pid),
            forall|i: int| 0 <= i < children@.len() ==> #[trigger] children@[i].pid <= isize::MAX,
            forall|j: int| 0 <= j < k ==> !(wanted(#[trigger] children@[j], pid) && children@[j].zombie),
        decreases children@.len() - k,
    {
        let c = children[k];
        if c.zombie && (pid == -1 || pid as usize == c.pid && pid >= 0) {
            let child = children.remove(k);
            return (child.pid as isize, Some(child.exit_code));
        }
        k = k + 1;
    }
    (-2, None)
}

/// Turns deadlock detection on (1) or off (0) for the process; returns 1,
/// or -1 with nothing changed for any other value.
pub fn sys_enable_deadlock_detect(p: &mut ProcessResources, enabled: usize) -> (r: isize)
    ensures
        enabled == 0 || enabled == 1 ==> r == 1 && final(p).enable_detect == enabled,
        !(enabled == 0 || enabled == 1) ==> r == -1 && final(p).enable_detect == old(p).enable_detect,
        final(p).semaphore_list@ == old(p).semaphore_list@,
        final(p).mutex_list@ == old(p).mutex_list@,
        final(p).condvar_list@ == old(p).condvar_list@,
        final(p).threads@ == old(p).threads@,
{
    if enabled != 0 && enabled != 1 {
        return -1;
    }
    p.enable_detect = enabled;
    1
}

/// Creates a semaphore with `res_count` resources in the first free slot,
/// or a new last one, and returns its id.
pub fn sys_semaphore_create(p: &mut ProcessResources, res_count: usize) -> (r: isize)
    requires
        res_count <= isize::MAX,
        old(p).semaphore_list@.len() < isize::MAX,
    ensures
        r == first_free(old(p).semaphore_list@),
        final(p).semaphore_list@.len() == if r < old(p).semaphore_list@.len() { old(p).semaphore_list@.len() } else { old(p).semaphore_list@.len() + 1 },
        final(p).semaphore_list@[r as int] is Some,
        final(p).semaphore_list@[r as int].unwrap().inner.count == res_count,
        final(p).semaphore_list@[r as int].unwrap().inner.id == r,
        final(p).semaphore_list@[r as int].unwrap().inner.wait_queue@.len() == 0,
        forall|i: int| 0 <= i < old(p).semaphore_list@.len() && i != r ==> #[trigger] final(p).semaphore_list@[i] == old(p).semaphore_list@[i],
        final(p).mutex_list@ == old(p).mutex_list@,
        final(p).threads@ == old(p).threads@,
{
    let id = find_free_slot(&p.semaphore_list);
    if id < p.semaphore_list.len() {
        p.semaphore_list.set(id, Some(Semaphore::new(res_count, id)));
    } else {
        p.semaphore_list.push(Some(Semaphore::new(res_count, id)));
    }
    id as isize
}

/// Creates a condition variable in the first free slot, or a new last one,
/// and returns its id.
pub fn sys_condvar_create(p: &mut ProcessResources) -> (r: isize)
    requires
        old(p).condvar_list@.len() < isize::MAX,
    ensures
        r == first_free(old(p).condvar_list@),
        final(p).condvar_list@[r as int] is Some,
        final(p).condvar_list@[r as int].unwrap().wait_queue@.len() == 0,
        final(p).condvar_list@.len() == if r < old(p).condvar_list@.len() { old(p).condvar_list@.len() } else { old(p).condvar_list@.len() + 1 },
        forall|i: int| 0 <= i < old(p).condvar_list@.len() && i != r ==> #[trigger] final(p).condvar_list@[i] == old(p).condvar_list@[i],
        final(p).mutex_list@ == old(p).mutex_list@,
        final(p).semaphore_list@ == old(p).semaphore_list@,
{
    let id = find_free_slot(&p.condvar_list);
    if id < p.condvar_list.len() {
        p.condvar_list.set(id, Some(Condvar::new()));
    } else {
        p.condvar_list.push(Some(Condvar::new()));
    }
    id as isize
}

/// Signals condition variable `condvar_id`; returns 0 and the thread to
/// wake, if any.
pub fn sys_condvar_signal(p: &mut ProcessResources, condvar_id: usize) -> (r: (isize, Option<usize>))
    requires
        condvar_id < old(p).condvar_list@.len(),
        old(p).condvar_list@[condvar_id as int] is Some,
    ensures
        r.0 == 0,
        ({
            let q = old(p).condvar_list@[condvar_id as int].unwrap().wait_queue@;
            &&& q.len() > 0 ==> r.1 == Some(q[0]) && final(p).condvar_list@[condvar_id as int].unwrap().wait_queue@ == q.drop_first()
            &&& q.len() == 0 ==> r.1 is None && final(p).condvar_list@[condvar_id as int].unwrap().wait_queue@ == q
        }),
        final(p).condvar_list@.len() == old(p).condvar_list@.len(),
        final(p).condvar_list@[condvar_id as int] is Some,
        forall|i: int| 0 <= i < old(p).condvar_list@.len() && i != condvar_id ==> #[trigger] final(p).condvar_list@[i] == old(p).condvar_list@[i],
{
    let mut c = p.condvar_list.remove(condvar_id).unwrap();
    let w = c.signal();
    p.condvar_list.insert(condvar_id, Some(c));
    proof {
        assert(p.condvar_list@ =~= old(p).condvar_list@.update(condvar_id as int, Some(c)));
    }
    (0, w)
}

/// Whether mutex `m` may be unlocked by thread `cur` of the tables `threads`.
pub open spec fn unlockable(m: MutexKind, cur: usize, threads: Seq<ThreadResources>) -> bool {
    cur < threads.len() && match m {
        MutexKind::Spin(s) => mtx_slot(threads[cur as int], s.id),
        MutexKind::Blocking(b) => {
            &&& b.inner.locked
            &&& mtx_slot(threads[cur as int], b.id)
            &&& forall|i: int| 0 <= i < b.inner.wait_queue@.len() ==> {
                let w = #[trigger] b.inner.wait_queue@[i];
                w < threads.len() && mtx_slot(threads[w as int], b.id)
            }
        },
    }
}

/// Unlocks mutex `mutex_id` for thread `cur`; returns 0 and the thread that
/// takes the mutex over, if any.
pub fn sys_mutex_unlock(p: &mut ProcessResources, mutex_id: usize, cur: usize) -> (r: (isize, Option<usize>))
    requires
        mutex_id < old(p).mutex_list@.len(),
        old(p).mutex_list@[mutex_id as int] is Some,
        unlockable(old(p).mutex_list@[mutex_id as int].unwrap(), cur, old(p).threads@),
    ensures
        r.0 == 0,
        final(p).mutex_list@.len() == old(p).mutex_list@.len(),
        final(p).threads@.len() == old(p).threads@.len(),
        final(p).condvar_list@ == old(p).condvar_list@,
        final(p).semaphore_list@ == old(p).semaphore_list@,
        final(p).enable_detect == old(p).enable_detect,
        forall|i: int| 0 <= i < old(p).mutex_list@.len() && i != mutex_id ==> #[trigger] final(p).mutex_list@[i] == old(p).mutex_list@[i],
        match old(p).mutex_list@[mutex_id as int].unwrap() {
            MutexKind::Spin(s) => r.1 is None && final(p).threads@[cur as int].mtx_allocation@
                == old(p).threads@[cur as int].mtx_allocation@.update(s.id as int, 0),
            MutexKind::Blocking(b) => (b.inner.wait_queue@.len() > 0 ==> r.1 == Some(b.inner.wait_queue@[0]))
                && (b.inner.wait_queue@.len() == 0 ==> r.1 is None),
        },
{
    let m = p.mutex_list.remove(mutex_id).unwrap();
    let mut woken: Option<usize> = None;
    let m2 = match m {
        MutexKind::Spin(mut s) => {
            let mut t = p.threads.remove(cur);
            s.unlock(&mut t);
            p.threads.insert(cur, t);
            MutexKind::Spin(s)
        },
        MutexKind::Blocking(mut b) => {
            woken = b.unlock(cur, &mut p.threads);
            MutexKind::Blocking(b)
        },
    };
    p.mutex_list.insert(mutex_id, Some(m2));
    proof {
        assert forall|i: int| 0 <= i < old(p).mutex_list@.len() && i != mutex_id implies #[trigger] p.mutex_list@[i] == old(p).mutex_list@[i] by {}
    }
    (0, woken)
}

/// Waits on condition variable `condvar_id` holding mutex `mutex_id`:
/// unlocks the mutex as [`sys_mutex_unlock`] does and queues thread `cur`
/// on the condition variable; the caller then blocks, and takes the mutex
/// again once woken. Returns 0 and the thread that took the mutex over, if
/// any.
pub fn sys_condvar_wait(p: &mut ProcessResources, condvar_id: usize, mutex_id: usize, cur: usize) -> (r: (isize, Option<usize>))
    requires
        condvar_id < old(p).condvar_list@.len(),
        old(p).condvar_list@[condvar_id as int] is Some,
        mutex_id < old(p).mutex_list@.len(),
        old(p).mutex_list@[mutex_id as int] is Some,
        unlockable(old(p).mutex_list@[mutex_id as int].unwrap(), cur, old(p).threads@),
    ensures
        r.0 == 0,
        final(p).condvar_list@.len() == old(p).condvar_list@.len(),
        final(p).condvar_list@[condvar_id as int] is Some,
        final(p).condvar_list@[condvar_id as int].unwrap().wait_queue@
            == old(p).condvar_list@[condvar_id as int].unwrap().wait_queue@.push(cur),
        forall|i: int| 0 <= i < old(p).condvar_list@.len() && i != condvar_id ==> #[trigger] final(p).condvar_list@[i] == old(p).condvar_list@[i],
        match old(p).mutex_list@[mutex_id as int].unwrap() {
            MutexKind::Spin(s) => r.1 is None,
            MutexKind::Blocking(b) => (b.inner.wait_queue@.len() > 0 ==> r.1 == Some(b.inner.wait_queue@[0]))
                && (b.inner.wait_queue@.len() == 0 ==> r.1 is None),
        },
{
    let (_, woken) = sys_mutex_unlock(p, mutex_id, cur);
    let mut c = p.condvar_list.remove(condvar_id).unwrap();
    c.wait(cur);
    p.condvar_list.insert(condvar_id, Some(c));
    proof {
        assert forall|i: int| 0 <= i < old(p).condvar_list@.len() && i != condvar_id implies #[trigger] p.condvar_list@[i] == old(p).condvar_list@[i] by {}
    }
    (0, woken)
}

/// Gives one unit back to semaphore `sem_id`; returns 0 and the thread to
/// wake, if any.
pub fn sys_semaphore_up(p: &mut ProcessResources, sem_id: usize) -> (r: (isize, Option<usize>))
    requires
        sem_id < old(p).semaphore_list@.len(),
        old(p).semaphore_list@[sem_id as int] is Some,
        ({
            let s = old(p).semaphore_list@[sem_id as int].unwrap();
            &&& s.inner.count < isize::MAX
            &&& forall|i: int| 0 <= i < s.inner.wait_queue@.len() ==> {
                let w = #[trigger] s.inner.wait_queue@[i];
                &&& w < old(p).threads@.len()
                &&& s.inner.id < old(p).threads@[w as int].sem_need@.len()
                &&& s.inner.id < old(p).threads@[w as int].sem_allocation@.len()
                &&& old(p).threads@[w as int].sem_allocation@[s.inner.id as int] < usize::MAX
            }
        }),
    ensures
        r.0 == 0,
        ({
            let s = old(p).semaphore_list@[sem_id as int].unwrap();
            let s2 = final(p).semaphore_list@[sem_id as int].unwrap();
            &&& final(p).semaphore_list@[sem_id as int] is Some
            &&& s2.inner.count == s.inner.count + 1
            &&& (s2.inner.count <= 0 && s.inner.wait_queue@.len() > 0) ==> r.1 == Some(s.inner.wait_queue@[0])
                && s2.inner.wait_queue@ == s.inner.wait_queue@.drop_first()
            &&& !(s2.inner.count <= 0 && s.inner.wait_queue@.len() > 0) ==> r.1 is None
                && s2.inner.wait_queue@ == s.inner.wait_queue@
        }),
        final(p).semaphore_list@.len() == old(p).semaphore_list@.len(),
        forall|i: int| 0 <= i < old(p).semaphore_list@.len() && i != sem_id ==> #[trigger] final(p).semaphore_list@[i] == old(p).semaphore_list@[i],
{
    let mut s = p.semaphore_list.remove(sem_id).unwrap();
    let w = s.up(&mut p.threads);
    p.semaphore_list.insert(sem_id, Some(s));
    proof {
        assert forall|i: int| 0 <= i < old(p).semaphore_list@.len() && i != sem_id implies #[trigger] p.semaphore_list@[i] == old(p).semaphore_list@[i] by {}
    }
    (0, w)
}

/// What a thread asking for a mutex is told to do.
#[derive(Clone, Copy, Debug, PartialEq, Eq, Structural)]
pub enum LockOutcome {
    /// The mutex is now held by the caller.
    Acquired,
    /// The spin mutex is held: yield and ask again.
    Retry,
    /// The caller is queued on the mutex and must block.
    Blocked,
}

/// A copy of `v`.
pub fn copy_vec(v: &Vec<usize>) -> (r: Vec<usize>)
    ensures
        r@ == v@,
{
    let mut r: Vec<usize> = Vec::new();
    let mut i: usize = 0;
    while i < v.len()
        invariant
            i <= v@.len(),
            r@ == v@.take(i as int),
        decreases v@.len() - i,
    {
        r.push(v[i]);
        i = i + 1;
    }
    assert(r@ =~= v@);
    r
}

/// Units available of each semaphore of `p`: its count where positive, 0
/// otherwise and for an empty slot.
pub open spec fn sem_work(p: ProcessResources) -> Seq<usize> {
    Seq::new(p.semaphore_list@.len(), |i: int| match p.semaphore_list@[i] {
        Some(s) => if s.inner.count > 0 { s.inner.count as usize } else { 0usize },
        None => 0usize,
    })
}

/// Free units of each mutex of `p`: 1 where it is unlocked, 0 where it is
/// held and for an empty slot.
pub open spec fn mtx_work(p: ProcessResources) -> Seq<usize> {
    Seq::new(p.mutex_list@.len(), |i: int| match p.mutex_list@[i] {
        Some(MutexKind::Spin(m)) => if m.inner.locked { 0usize } else { 1usize },
        Some(MutexKind::Blocking(m)) => if m.inner.locked { 0usize } else { 1usize },
        None => 0usize,
    })
}

/// The semaphore needs of the threads of `p`, one row per thread.
pub open spec fn sem_need_rows(p: ProcessResources) -> Seq<Seq<usize>> {
    Seq::new(p.threads@.len(), |t: int| p.threads@[t].sem_need@)
}

/// The semaphore holdings of the threads of `p`, one row per thread.
pub open spec fn sem_alloc_rows(p: ProcessResources) -> Seq<Seq<usize>> {
    Seq::new(p.threads@.len(), |t: int| p.threads@[t].sem_allocation@)
}

/// The mutex needs of the threads of `p`, one row per thread.
pub open spec fn mtx_need_rows(p: ProcessResources) -> Seq<Seq<usize>> {
    Seq::new(p.threads@.len(), |t: int| p.threads@[t].mtx_need@)
}

/// The mutex holdings of the threads of `p`, one row per thread.
pub open spec fn mtx_alloc_rows(p: ProcessResources) -> Seq<Seq<usize>> {
    Seq::new(p.threads@.len(), |t: int| p.threads@[t].mtx_allocation@)
}

/// Whether the tables `need` and `alloc` have one row of width `w` per
/// thread, and the units available plus all that is held fit in a `usize`.
pub open spec fn tables_fit(work: Seq<usize>, need: Seq<Seq<usize>>, alloc: Seq<Seq<usize>>) -> bool {
    &&& need.len() == alloc.len()
    &&& forall|i: int| 0 <= i < need.len() ==> #[trigger] need[i].len() == work.len()
    &&& forall|i: int| 0 <= i < alloc.len() ==> #[trigger] alloc[i].len() == work.len()
    &&& forall|j: int| 0 <= j < work.len() ==> work[j] + #[trigger] held_by(alloc, all_marked(alloc.len()), j, alloc.len() as int) <= usize::MAX
}

/// Runs deadlock detection over the semaphore tables (`sems`) or the mutex
/// tables of `p`.
fn tables_deadlock_free(p: &ProcessResources, sems: bool) -> (r: bool)
    requires
        sems ==> tables_fit(sem_work(*p), sem_need_rows(*p), sem_alloc_rows(*p)),
        !sems ==> tables_fit(mtx_work(*p), mtx_need_rows(*p), mtx_alloc_rows(*p)),
    ensures
        sems ==> r == deadlock_free(sem_work(*p), sem_need_rows(*p), sem_alloc_rows(*p)),
        !sems ==> r == deadlock_free(mtx_work(*p), mtx_need_rows(*p), mtx_alloc_rows(*p)),
{
    let mut work: Vec<usize> = Vec::new();
    let len = if sems { p.semaphore_list.len() } else { p.mutex_list.len() };
    let mut i: usize = 0;
    while i < len
        invariant
            i <= len,
            len == if sems { p.semaphore_list@.len() } else { p.mutex_list@.len() },
            work@ == (if sems { sem_work(*p) } else { mtx_work(*p) }).take(i as int),
        decreases len - i,
    {
        let u: usize = if sems {
            match &p.semaphore_list[i] {
                Some(s) => if s.inner.count > 0 { s.inner.count as usize } else { 0 },
                None => 0,
            }
        } else {
            match &p.mutex_list[i] {
                Some(MutexKind::Spin(m)) => if m.inner.locked { 0 } else { 1 },
                Some(MutexKind::Blocking(m)) => if m.inner.locked { 0 } else { 1 },
                None => 0,
            }
        };
        work.push(u);
        proof {
            assert(work@ =~= (if sems { sem_work(*p) } else { mtx_work(*p) }).take(i + 1));
        }
        i = i + 1;
    }
    let mut need: Vec<Vec<usize>> = Vec::new();
    let mut alloc: Vec<Vec<usize>> = Vec::new();
    let mut t: usize = 0;
    while t < p.threads.len()
        invariant
            t <= p.threads@.len(),
            need@.len() == t,
            alloc@.len() == t,
            rows(need@) == (if sems { sem_need_rows(*p) } else { mtx_need_rows(*p) }).take(t as int),
            rows(alloc@) == (if sems { sem_alloc_rows(*p) } else { mtx_alloc_rows(*p) }).take(t as int),
        decreases p.threads@.len() - t,
    {
        let ghost n0 = need@;
        let ghost a0 = alloc@;
        if sems {
            need.push(copy_vec(&p.threads[t].sem_need));
            alloc.push(copy_vec(&p.threads[t].sem_allocation));
        } else {
            need.push(copy_vec(&p.threads[t].mtx_need));
            alloc.push(copy_vec(&p.threads[t].mtx_allocation));
        }
        proof {
            assert forall|k: int| 0 <= k < t implies #[trigger] rows(need@)[k] == rows(n0)[k] && rows(alloc@)[k] == rows(a0)[k] by {
                assert(need@[k] == n0[k]);
                assert(alloc@[k] == a0[k]);
            }
            assert(rows(need@) =~= (if sems { sem_need_rows(*p) } else { mtx_need_rows(*p) }).take(t + 1));
            assert(rows(alloc@) =~= (if sems { sem_alloc_rows(*p) } else { mtx_alloc_rows(*p) }).take(t + 1));
        }
        t = t + 1;
    }
    proof {
        assert(work@ =~= (if sems { sem_work(*p) } else { mtx_work(*p) }));
        assert(rows(need@) =~= (if sems { sem_need_rows(*p) } else { mtx_need_rows(*p) }));
        assert(rows(alloc@) =~= (if sems { sem_alloc_rows(*p) } else { mtx_alloc_rows(*p) }));
        assert forall|k: int| 0 <= k < need@.len() implies #[trigger] need@[k]@.len() == work@.len() by {
            assert(rows(need@)[k] == need@[k]@);
        }
        assert forall|k: int| 0 <= k < alloc@.len() implies #[trigger] alloc@[k]@.len() == work@.len() by {
            assert(rows(alloc@)[k] == alloc@[k]@);
        }
    }
    detect_deadlock(&work, &need, &alloc)
}

/// What deadlock detection answers for `p` under its detection setting:
/// always yes when off (0), always no for a setting other than 0 or 1,
/// and otherwise whether the chosen tables are free of deadlock.
pub open spec fn detection_passes(p: ProcessResources, sems: bool) -> bool {
    if p.enable_detect == 0 {
        true
    } else if p.enable_detect != 1 {
        false
    } else if sems {
        deadlock_free(sem_work(p), sem_need_rows(p), sem_alloc_rows(p))
    } else {
        deadlock_free(mtx_work(p), mtx_need_rows(p), mtx_alloc_rows(p))
    }
}

/// Takes one unit of semaphore `sem_id` for thread `cur`. Where deadlock
/// detection is on and finds a deadlocked set of threads, returns -0xDEAD
/// and changes nothing. Otherwise returns 0 and whether `cur` must block.
pub fn sys_semaphore_down(p: &mut ProcessResources, sem_id: usize, cur: usize) -> (r: (isize, bool))
    requires
        sem_id < old(p).semaphore_list@.len(),
        old(p).semaphore_list@[sem_id as int] is Some,
        old(p).semaphore_list@[sem_id as int].unwrap().inner.count > isize::MIN,
        old(p).enable_detect == 1 ==> tables_fit(sem_work(*old(p)), sem_need_rows(*old(p)), sem_alloc_rows(*old(p))),
    ensures
        !detection_passes(*old(p), true) ==> r == (-0xDEADisize, false) && final(p).semaphore_list@ == old(p).semaphore_list@,
        detection_passes(*old(p), true) ==> ({
            let s = old(p).semaphore_list@[sem_id as int].unwrap();
            let s2 = final(p).semaphore_list@[sem_id as int].unwrap();
            &&& r.0 == 0
            &&& final(p).semaphore_list@[sem_id as int] is Some
            &&& s2.inner.count == s.inner.count - 1
            &&& r.1 == (s2.inner.count < 0)
            &&& r.1 ==> s2.inner.wait_queue@ == s.inner.wait_queue@.push(cur)
            &&& !r.1 ==> s2.inner.wait_queue@ == s.inner.wait_queue@
            &&& final(p).semaphore_list@.len() == old(p).semaphore_list@.len()
            &&& forall|i: int| 0 <= i < old(p).semaphore_list@.len() && i != sem_id ==> #[trigger] final(p).semaphore_list@[i] == old(p).semaphore_list@[i]
        }),
        final(p).threads@ == old(p).threads@,
        final(p).mutex_list@ == old(p).mutex_list@,
{
    if p.enable_detect != 0 {
        if p.enable_detect != 1 || !tables_deadlock_free(p, true) {
            return (-0xDEAD, false);
        }
    }
    let mut s = p.semaphore_list.remove(sem_id).unwrap();
    let blocked = s.down(cur);
    p.semaphore_list.insert(sem_id, Some(s));
    proof {
        assert forall|i: int| 0 <= i < old(p).semaphore_list@.len() && i != sem_id implies #[trigger] p.semaphore_list@[i] == old(p).semaphore_list@[i] by {}
    }
    (0, blocked)
}

/// Asks for mutex `mutex_id` on behalf of thread `cur`. Where deadlock
/// detection is on and finds a deadlocked set of threads, returns -0xDEAD
/// and changes nothing. Otherwise returns 0 and what the caller must do.
pub fn sys_mutex_lock(p: &mut ProcessResources, mutex_id: usize, cur: usize) -> (r: (isize, LockOutcome))
    requires
        mutex_id < old(p).mutex_list@.len(),
        old(p).mutex_list@[mutex_id as int] is Some,
        cur < old(p).threads@.len(),
        match old(p).mutex_list@[mutex_id as int].unwrap() {
            MutexKind::Spin(m) => mtx_slot(old(p).threads@[cur as int], m.id),
            MutexKind::Blocking(m) => true,
        },
        old(p).enable_detect == 1 ==> tables_fit(mtx_work(*old(p)), mtx_need_rows(*old(p)), mtx_alloc_rows(*old(p))),
    ensures
        !detection_passes(*old(p), false) ==> r == (-0xDEADisize, LockOutcome::Retry) && final(p).mutex_list@ == old(p).mutex_list@
            && final(p).threads@ == old(p).threads@,
        detection_passes(*old(p), false) ==> r.0 == 0 && match old(p).mutex_list@[mutex_id as int].unwrap() {
            MutexKind::Spin(m) => r.1 == if m.inner.locked { LockOutcome::Retry } else { LockOutcome::Acquired },
            MutexKind::Blocking(m) => r.1 == if m.inner.locked { LockOutcome::Blocked } else { LockOutcome::Acquired },
        },
        final(p).mutex_list@.len() == old(p).mutex_list@.len(),
        final(p).threads@.len() == old(p).threads@.len(),
        final(p).semaphore_list@ == old(p).semaphore_list@,
{
    if p.enable_detect != 0 {
        if p.enable_detect != 1 || !tables_deadlock_free(p, false) {
            return (-0xDEAD, LockOutcome::Retry);
        }
    }
    let m = p.mutex_list.remove(mutex_id).unwrap();
    let outcome: LockOutcome;
    let m2 = match m {
        MutexKind::Spin(mut s) => {
            let mut t = p.threads.remove(cur);
            let got = s.lock(&mut t);
            p.threads.insert(cur, t);
            outcome = if got { LockOutcome::Acquired } else { LockOutcome::Retry };
            MutexKind::Spin(s)
        },
        MutexKind::Blocking(mut b) => {
            let blocked = b.lock(cur);
            outcome = if blocked { LockOutcome::Blocked } else { LockOutcome::Acquired };
            MutexKind::Blocking(b)
        },
    };
    p.mutex_list.insert(mutex_id, Some(m2));
    (0, outcome)
}

/// Creates a mutex, spinning or blocking, in the first free slot or a new
/// last one, and returns its id; every thread's mutex tables grow with
/// zeros to cover that id.
pub fn sys_mutex_create(p: &mut ProcessResources, blocking: bool) -> (r: isize)
    requires
        old(p).mutex_list@.len() < isize::MAX,
    ensures
        r == first_free(old(p).mutex_list@),
        final(p).mutex_list@.len() == if r < old(p).mutex_list@.len() { old(p).mutex_list@.len() } else { old(p).mutex_list@.len() + 1 },
        final(p).mutex_list@[r as int] is Some,
        match final(p).mutex_list@[r as int].unwrap() {
            MutexKind::Spin(m) => !blocking && !m.inner.locked && m.id == r,
            MutexKind::Blocking(m) => blocking && !m.inner.locked && m.id == r && m.inner.wait_queue@.len() == 0,
        },
        forall|i: int| 0 <= i < old(p).mutex_list@.len() && i != r ==> #[trigger] final(p).mutex_list@[i] == old(p).mutex_list@[i],
        final(p).threads@.len() == old(p).threads@.len(),
        forall|t: int| 0 <= t < old(p).threads@.len() ==> {
            let a = old(p).threads@[t];
            let b = #[trigger] final(p).threads@[t];
            &&& b.mtx_need@.len() == if a.mtx_need@.len() > r { a.mtx_need@.len() } else { (r + 1) as nat }
            &&& b.mtx_allocation@.len() == if a.mtx_allocation@.len() > r { a.mtx_allocation@.len() } else { (r + 1) as nat }
            &&& forall|k: int| 0 <= k < b.mtx_need@.len() ==> #[trigger] b.mtx_need@[k] == if k < a.mtx_need@.len() { a.mtx_need@[k] } else { 0 }
            &&& forall|k: int| 0 <= k < b.mtx_allocation@.len() ==> #[trigger] b.mtx_allocation@[k] == if k < a.mtx_allocation@.len() { a.mtx_allocation@[k] } else { 0 }
            &&& b.sem_need@ == a.sem_need@
            &&& b.sem_allocation@ == a.sem_allocation@
        },
        final(p).semaphore_list@ == old(p).semaphore_list@,
{
    let id = find_free_slot(&p.mutex_list);
    let mut t: usize = 0;
    let ghost th0 = p.threads@;
    while t < p.threads.len()
        invariant
            t <= p.threads@.len(),
            p.threads@.len() == th0.len(),
            id < isize::MAX,
            p.mutex_list@ == old(p).mutex_list@,
            p.semaphore_list@ == old(p).semaphore_list@,
            th0 == old(p).threads@,
            forall|k: int| t <= k < th0.len() ==> #[trigger] p.threads@[k] == th0[k],
            forall|k: int| 0 <= k < t ==> {
                let a = th0[k];
                let b = #[trigger] p.threads@[k];
                &&& b.mtx_need@.len() == if a.mtx_need@.len() > id { a.mtx_need@.len() } else { (id + 1) as nat }
                &&& b.mtx_allocation@.len() == if a.mtx_allocation@.len() > id { a.mtx_allocation@.len() } else { (id + 1) as nat }
                &&& forall|q: int| 0 <= q < b.mtx_need@.len() ==> #[trigger] b.mtx_need@[q] == if q < a.mtx_need@.len() { a.mtx_need@[q] } else { 0 }
                &&& forall|q: int| 0 <= q < b.mtx_allocation@.len() ==> #[trigger] b.mtx_allocation@[q] == if q < a.mtx_allocation@.len() { a.mtx_allocation@[q] } else { 0 }
                &&& b.sem_need@ == a.sem_need@
                &&& b.sem_allocation@ == a.sem_allocation@
            },
        decreases th0.len() - t,
    {
        let mut th = p.threads.remove(t);
        let ghost a = th;
        while th.mtx_allocation.len() < id + 1
            invariant
                th.mtx_allocation@.len() <= if a.mtx_allocation@.len() > id { a.mtx_allocation@.len() } else { (id + 1) as nat },
                th.mtx_allocation@.len() >= a.mtx_allocation@.len(),
                id < isize::MAX,
                forall|q: int| 0 <= q < th.mtx_allocation@.len() ==> #[trigger] th.mtx_allocation@[q] == if q < a.mtx_allocation@.len() { a.mtx_allocation@[q] } else { 0 },
                th.mtx_need@ == a.mtx_need@,
                th.sem_need@ == a.sem_need@,
                th.sem_allocation@ == a.sem_allocation@,
            decreases id + 1 - th.mtx_allocation@.len(),
        {
            th.mtx_allocation.push(0);
        }
        while th.mtx_need.len() < id + 1
            invariant
                th.mtx_need@.len() <= if a.mtx_need@.len() > id { a.mtx_need@.len() } else { (id + 1) as nat },
                th.mtx_need@.len() >= a.mtx_need@.len(),
                id < isize::MAX,
                forall|q: int| 0 <= q < th.mtx_need@.len() ==> #[trigger] th.mtx_need@[q] == if q < a.mtx_need@.len() { a.mtx_need@[q] } else { 0 },
                th.mtx_allocation@.len() == if a.mtx_allocation@.len() > id { a.mtx_allocation@.len() } else { (id + 1) as nat },
                forall|q: int| 0 <= q < th.mtx_allocation@.len() ==> #[trigger] th.mtx_allocation@[q] == if q < a.mtx_allocation@.len() { a.mtx_allocation@[q] } else { 0 },
                th.sem_need@ == a.sem_need@,
                th.sem_allocation@ == a.sem_allocation@,
            decreases id + 1 - th.mtx_need@.len(),
        {
            th.mtx_need.push(0);
        }
        p.threads.insert(t, th);
        t = t + 1;
    }
    let m = if blocking { MutexKind::Blocking(MutexBlocking::new(id)) } else { MutexKind::Spin(MutexSpin::new(id)) };
    if id < p.mutex_list.len() {
        p.mutex_list.set(id, Some(m));
    } else {
        p.mutex_list.push(Some(m));
    }
    id as isize
}

/// The time of day `us` microseconds, as seconds and microseconds; the
/// caller writes it to the user's buffer.
pub fn sys_get_time(us: usize) -> (r: TimeVal)
    ensures
        r.sec == us / 1_000_000,
        r.usec == us % 1_000_000,
{
    TimeVal { sec: us / 1_000_000, usec: us % 1_000_000 }
}

/// What `task_info` reports of the running task `task` at time `now_us`:
/// running, its system call counts, and the milliseconds since it first
/// ran; the caller writes it to the user's buffer.
pub fn sys_task_info(task: &TaskControlBlock, now_us: usize) -> (r: TaskInfo)
    requires
        now_us >= task.task_first_invoked_time,
    ensures
        r.status == TaskStatus::Running,
        r.syscall_times@ == task.syscall_times@,
        r.time == (now_us - task.task_first_invoked_time) / 1000,
{
    let mut times: Vec<u32> = Vec::new();
    let mut i: usize = 0;
    while i < task.syscall_times.len()
        invariant
            i <= task.syscall_times@.len(),
            times@ == task.syscall_times@.take(i as int),
        decreases task.syscall_times@.len() - i,
    {
        times.push(task.syscall_times[i]);
        i = i + 1;
    }
    assert(times@ =~= task.syscall_times@);
    TaskInfo { status: TaskStatus::Running, syscall_times: times, time: (now_us - task.task_first_invoked_time) / 1000 }
}

} // verus!
