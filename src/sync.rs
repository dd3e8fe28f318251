//! Mutexes, semaphores and condition variables of a process, with the
//! per-thread tables that deadlock detection reads. Blocking and waking are
//! left to the scheduler: an operation says which thread must block or
//! which thread it wakes.
use vstd::prelude::*;
use std::collections::VecDeque;

verus! {

/// What one thread holds and waits for, per mutex id and per semaphore id.
pub struct ThreadResources {
    pub mtx_need: Vec<usize>,
    pub mtx_allocation: Vec<usize>,
    pub sem_need: Vec<usize>,
    pub sem_allocation: Vec<usize>,
}

pub struct SemaphoreInner {
    pub count: isize,
    pub wait_queue: VecDeque<usize>,
    pub id: usize,
}

/// A counting semaphore; its wait queue holds thread ids.
pub struct Semaphore {
    pub inner: SemaphoreInner,
}

impl Semaphore {
    /// A semaphore with `res_count` resources and no waiter.
    pub fn new(res_count: usize, id: usize) -> (r: Semaphore)
        requires
            res_count <= isize::MAX,
        ensures
            r.inner.count == res_count,
            r.inner.wait_queue@ == Seq::<usize>::empty(),
            r.inner.id == id,
    {
        Semaphore { inner: SemaphoreInner { count: res_count as isize, wait_queue: VecDeque::new(), id } }
    }

    /// Records in the tables `t` of the calling thread what a `down` would
    /// do now: one more needed unit where it would block, one more held unit
    /// otherwise.
    pub fn update(&self, t: &mut ThreadResources)
        requires
            self.inner.id < old(t).sem_need@.len(),
            self.inner.id < old(t).sem_allocation@.len(),
            old(t).sem_need@[self.inner.id as int] < usize::MAX,
            old(t).sem_allocation@[self.inner.id as int] < usize::MAX,
        ensures
            final(t).mtx_need@ == old(t).mtx_need@,
            final(t).mtx_allocation@ == old(t).mtx_allocation@,
            self.inner.count - 1 < 0 ==> final(t).sem_need@ == old(t).sem_need@.update(
                self.inner.id as int,
                (old(t).sem_need@[self.inner.id as int] + 1) as usize,
            ) && final(t).sem_allocation@ == old(t).sem_allocation@,
            self.inner.count - 1 >= 0 ==> final(t).sem_allocation@ == old(t).sem_allocation@.update(
                self.inner.id as int,
                (old(t).sem_allocation@[self.inner.id as int] + 1) as usize,
            ) && final(t).sem_need@ == old(t).sem_need@,
    {
        let id = self.inner.id;
        if self.inner.count <= 0 {
            let v = t.sem_need[id];
            t.sem_need.set(id, v + 1);
        } else {
            let v = t.sem_allocation[id];
            t.sem_allocation.set(id, v + 1);
        }
    }

    /// Gives one unit back. Where threads were waiting, the first of them
    /// gets the unit: it is taken off the queue, its tables record the unit
    /// as held instead of needed, and it is returned for waking.
    pub fn up(&mut self, threads: &mut Vec<ThreadResources>) -> (woken: Option<usize>)
        requires
            old(self).inner.count < isize::MAX,
            forall|i: int| 0 <= i < old(self).inner.wait_queue@.len() ==> {
                let w = #[trigger] old(self).inner.wait_queue@[i];
                &&& w < old(threads)@.len()
                &&& old(self).inner.id < old(threads)@[w as int].sem_need@.len()
                &&& old(self).inner.id < old(threads)@[w as int].sem_allocation@.len()
                &&& old(threads)@[w as int].sem_allocation@[old(self).inner.id as int] < usize::MAX
            },
        ensures
            final(self).inner.count == old(self).inner.count + 1,
            final(self).inner.id == old(self).inner.id,
            final(threads)@.len() == old(threads)@.len(),
            (final(self).inner.count <= 0 && old(self).inner.wait_queue@.len() > 0) ==> ({
                let w = old(self).inner.wait_queue@[0];
                let id = old(self).inner.id as int;
                let t = old(threads)@[w as int];
                &&& woken == Some(w)
                &&& final(self).inner.wait_queue@ == old(self).inner.wait_queue@.drop_first()
                &&& forall|i: int| 0 <= i < old(threads)@.len() && i != w ==> #[trigger] final(threads)@[i] == old(threads)@[i]
                &&& final(threads)@[w as int].sem_allocation@ == t.sem_allocation@.update(id, (t.sem_allocation@[id] + 1) as usize)
                &&& final(threads)@[w as int].sem_need@ == t.sem_need@.update(id, if t.sem_need@[id] > 0 { (t.sem_need@[id] - 1) as usize } else { 0 })
                &&& final(threads)@[w as int].mtx_need@ == t.mtx_need@
                &&& final(threads)@[w as int].mtx_allocation@ == t.mtx_allocation@
            }),
            !(final(self).inner.count <= 0 && old(self).inner.wait_queue@.len() > 0) ==> woken is None
                && final(self).inner.wait_queue@ == old(self).inner.wait_queue@ && final(threads)@ == old(threads)@,
    {
        self.inner.count = self.inner.count + 1;
        let id = self.inner.id;
        if self.inner.count <= 0 {
            if self.inner.wait_queue.len() > 0 {
                let w = self.inner.wait_queue.pop_front().unwrap();
                assert(w == old(self).inner.wait_queue@[0]);
                let mut t = threads.remove(w);
                let a = t.sem_allocation[id];
                t.sem_allocation.set(id, a + 1);
                let n = t.sem_need[id];
                if n > 0 {
                    t.sem_need.set(id, n - 1);
                } else {
                    t.sem_need.set(id, 0);
                }
                threads.insert(w, t);
                proof {
                    assert forall|i: int| 0 <= i < old(threads)@.len() && i != w implies #[trigger] threads@[i] == old(threads)@[i] by {}
                }
                return Some(w);
            }
        }
        None
    }

    /// Takes one unit. Where none was left, thread `cur` joins the wait
    /// queue and the result says that it must block.
    pub fn down(&mut self, cur: usize) -> (blocked: bool)
        requires
            old(self).inner.count > isize::MIN,
        ensures
            final(self).inner.count == old(self).inner.count - 1,
            final(self).inner.id == old(self).inner.id,
            blocked == (final(self).inner.count < 0),
            blocked ==> final(self).inner.wait_queue@ == old(self).inner.wait_queue@.push(cur),
            !blocked ==> final(self).inner.wait_queue@ == old(self).inner.wait_queue@,
    {
        self.inner.count = self.inner.count - 1;
        if self.inner.count < 0 {
            self.inner.wait_queue.push_back(cur);
            true
        } else {
            false
        }
    }
}

pub struct MutexSpinInner {
    pub locked: bool,
}

/// A mutex whose waiters yield and try again.
pub struct MutexSpin {
    pub inner: MutexSpinInner,
    pub id: usize,
}

pub struct MutexBlockingInner {
    pub locked: bool,
    pub wait_queue: VecDeque<usize>,
}

/// A mutex whose waiters block in a queue of thread ids.
pub struct MutexBlocking {
    pub inner: MutexBlockingInner,
    pub id: usize,
}

/// What every mutex answers, whatever its kind.
pub trait Mutex {
    /// The mutex's id.
    spec fn id_spec(&self) -> usize;

    /// Whether the mutex is held.
    spec fn locked_spec(&self) -> bool;

    /// The mutex's id.
    fn get_id(&self) -> (r: usize)
        ensures
            r == self.id_spec(),
    ;

    /// 1 where the mutex is free, 0 where it is held.
    fn islocked(&self) -> (r: usize)
        ensures
            r == if self.locked_spec() { 0usize } else { 1usize },
    ;
}

impl Mutex for MutexSpin {
    open spec fn id_spec(&self) -> usize {
        self.id
    }

    open spec fn locked_spec(&self) -> bool {
        self.inner.locked
    }

    fn get_id(&self) -> (r: usize) {
        self.id
    }

    fn islocked(&self) -> (r: usize) {
        if self.inner.locked {
            0
        } else {
            1
        }
    }
}

impl Mutex for MutexBlocking {
    open spec fn id_spec(&self) -> usize {
        self.id
    }

    open spec fn locked_spec(&self) -> bool {
        self.inner.locked
    }

    fn get_id(&self) -> (r: usize) {
        self.id
    }

    fn islocked(&self) -> (r: usize) {
        if self.inner.locked {
            0
        } else {
            1
        }
    }
}

/// Whether thread table `t` can record mutex `id`.
pub open spec fn mtx_slot(t: ThreadResources, id: usize) -> bool {
    id < t.mtx_need@.len() && id < t.mtx_allocation@.len()
}

impl MutexSpin {
    /// An unlocked mutex with id `id`.
    pub fn new(id: usize) -> (r: MutexSpin)
        ensures
            !r.inner.locked,
            r.id == id,
    {
        MutexSpin { inner: MutexSpinInner { locked: false }, id }
    }

    /// Records in the tables `t` of the calling thread what a `lock` would
    /// do now: the mutex is needed where it is held, held otherwise.
    pub fn update(&self, t: &mut ThreadResources)
        requires
            mtx_slot(*old(t), self.id),
        ensures
            final(t).sem_need@ == old(t).sem_need@,
            final(t).sem_allocation@ == old(t).sem_allocation@,
            self.inner.locked ==> final(t).mtx_need@ == old(t).mtx_need@.update(self.id as int, 1)
                && final(t).mtx_allocation@ == old(t).mtx_allocation@,
            !self.inner.locked ==> final(t).mtx_allocation@ == old(t).mtx_allocation@.update(self.id as int, 1)
                && final(t).mtx_need@ == old(t).mtx_need@,
    {
        if self.inner.locked {
            t.mtx_need.set(self.id, 1);
        } else {
            t.mtx_allocation.set(self.id, 1);
        }
    }

    /// One attempt to take the mutex for the thread with tables `t`.
    /// Returns whether it was taken; where not, the caller yields and tries
    /// again.
    pub fn lock(&mut self, t: &mut ThreadResources) -> (acquired: bool)
        requires
            mtx_slot(*old(t), old(self).id),
        ensures
            final(self).id == old(self).id,
            acquired == !old(self).inner.locked,
            final(self).inner.locked,
            final(t).sem_need@ == old(t).sem_need@,
            final(t).sem_allocation@ == old(t).sem_allocation@,
            acquired ==> final(t).mtx_need@ == old(t).mtx_need@.update(old(self).id as int, 0)
                && final(t).mtx_allocation@ == old(t).mtx_allocation@.update(old(self).id as int, 1),
            !acquired ==> *final(t) == *old(t),
    {
        if self.inner.locked {
            false
        } else {
            t.mtx_need.set(self.id, 0);
            t.mtx_allocation.set(self.id, 1);
            self.inner.locked = true;
            true
        }
    }

    /// Releases the mutex held by the thread with tables `t`.
    pub fn unlock(&mut self, t: &mut ThreadResources)
        requires
            mtx_slot(*old(t), old(self).id),
        ensures
            final(self).id == old(self).id,
            !final(self).inner.locked,
            final(t).mtx_allocation@ == old(t).mtx_allocation@.update(old(self).id as int, 0),
            final(t).mtx_need@ == old(t).mtx_need@,
            final(t).sem_need@ == old(t).sem_need@,
            final(t).sem_allocation@ == old(t).sem_allocation@,
    {
        t.mtx_allocation.set(self.id, 0);
        self.inner.locked = false;
    }
}

impl MutexBlocking {
    /// An unlocked mutex with id `id` and no waiter.
    pub fn new(id: usize) -> (r: MutexBlocking)
        ensures
            !r.inner.locked,
            r.inner.wait_queue@ == Seq::<usize>::empty(),
            r.id == id,
    {
        MutexBlocking { inner: MutexBlockingInner { locked: false, wait_queue: VecDeque::new() }, id }
    }

    /// Records in the tables `t` of the calling thread what a `lock` would
    /// do now: the mutex is needed where it is held; otherwise it is held
    /// and no longer needed.
    pub fn update(&self, t: &mut ThreadResources)
        requires
            mtx_slot(*old(t), self.id),
        ensures
            final(t).sem_need@ == old(t).sem_need@,
            final(t).sem_allocation@ == old(t).sem_allocation@,
            self.inner.locked ==> final(t).mtx_need@ == old(t).mtx_need@.update(self.id as int, 1)
                && final(t).mtx_allocation@ == old(t).mtx_allocation@,
            !self.inner.locked ==> final(t).mtx_allocation@ == old(t).mtx_allocation@.update(self.id as int, 1)
                && final(t).mtx_need@ == old(t).mtx_need@.update(self.id as int, 0),
    {
        if self.inner.locked {
            t.mtx_need.set(self.id, 1);
        } else {
            t.mtx_need.set(self.id, 0);
            t.mtx_allocation.set(self.id, 1);
        }
    }

    /// Takes the mutex for thread `cur`, or queues `cur` where it is held;
    /// the result says whether `cur` must block.
    pub fn lock(&mut self, cur: usize) -> (blocked: bool)
        ensures
            final(self).id == old(self).id,
            final(self).inner.locked,
            blocked == old(self).inner.locked,
            blocked ==> final(self).inner.wait_queue@ == old(self).inner.wait_queue@.push(cur),
            !blocked ==> final(self).inner.wait_queue@ == old(self).inner.wait_queue@,
    {
        if self.inner.locked {
            self.inner.wait_queue.push_back(cur);
            true
        } else {
            self.inner.locked = true;
            false
        }
    }

    /// Releases the mutex held by thread `cur`. Where threads are waiting,
    /// the first one takes it over and is returned for waking; otherwise
    /// the mutex becomes free.
    pub fn unlock(&mut self, cur: usize, threads: &mut Vec<ThreadResources>) -> (woken: Option<usize>)
        requires
            old(self).inner.locked,
            cur < old(threads)@.len(),
            mtx_slot(old(threads)@[cur as int], old(self).id),
            forall|i: int| 0 <= i < old(self).inner.wait_queue@.len() ==> {
                let w = #[trigger] old(self).inner.wait_queue@[i];
                w < old(threads)@.len() && mtx_slot(old(threads)@[w as int], old(self).id)
            },
        ensures
            final(self).id == old(self).id,
            final(threads)@.len() == old(threads)@.len(),
            old(self).inner.wait_queue@.len() > 0 ==> ({
                let w = old(self).inner.wait_queue@[0];
                let id = old(self).id as int;
                &&& woken == Some(w)
                &&& final(self).inner.locked
                &&& final(self).inner.wait_queue@ == old(self).inner.wait_queue@.drop_first()
                &&& w != cur ==> final(threads)@[cur as int].mtx_allocation@ == old(threads)@[cur as int].mtx_allocation@.update(id, 0)
                &&& final(threads)@[w as int].mtx_allocation@[id] == 1
                &&& final(threads)@[w as int].mtx_need@[id] == 0
            }),
            old(self).inner.wait_queue@.len() == 0 ==> woken is None && !final(self).inner.locked
                && final(threads)@ == old(threads)@ && final(self).inner.wait_queue@ == old(self).inner.wait_queue@,
    {
        if self.inner.wait_queue.len() > 0 {
            let w = self.inner.wait_queue.pop_front().unwrap();
            assert(w == old(self).inner.wait_queue@[0]);
            let id = self.id;
            let mut t = threads.remove(cur);
            t.mtx_allocation.set(id, 0);
            threads.insert(cur, t);
            let mut u = threads.remove(w);
            u.mtx_allocation.set(id, 1);
            u.mtx_need.set(id, 0);
            threads.insert(w, u);
            Some(w)
        } else {
            self.inner.locked = false;
            None
        }
    }
}

/// A condition variable; its wait queue holds thread ids.
pub struct Condvar {
    pub wait_queue: VecDeque<usize>,
}

impl Condvar {
    pub fn new() -> (r: Condvar)
        ensures
            r.wait_queue@ == Seq::<usize>::empty(),
    {
        Condvar { wait_queue: VecDeque::new() }
    }

    /// Wakes the first waiter, if any.
    pub fn signal(&mut self) -> (woken: Option<usize>)
        ensures
            old(self).wait_queue@.len() > 0 ==> woken == Some(old(self).wait_queue@[0])
                && final(self).wait_queue@ == old(self).wait_queue@.drop_first(),
            old(self).wait_queue@.len() == 0 ==> woken is None && final(self).wait_queue@ == old(self).wait_queue@,
    {
        self.wait_queue.pop_front()
    }

    /// Queues thread `cur`, which then blocks.
    pub fn wait(&mut self, cur: usize)
        ensures
            final(self).wait_queue@ == old(self).wait_queue@.push(cur),
    {
        self.wait_queue.push_back(cur);
    }
}

} // verus!
