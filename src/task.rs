//! Scheduling decisions: the stride-scheduled ready queue, and the
//! round-robin choice of the next ready task.
use vstd::prelude::*;
use std::collections::VecDeque;
use crate::process::TaskStatus;

verus! {

/// The pass added to a task's stride is this constant divided by its priority.
pub const BIG_STRIDE: usize = 10_000_000;

/// A task waiting in the ready queue.
#[derive(Clone, Copy, Debug, PartialEq, Eq, Structural)]
pub struct ReadyTask {
    pub pid: usize,
    pub stride: usize,
    pub priority: usize,
}

/// The ready queue of a stride scheduler.
pub struct TaskManager {
    pub ready_queue: VecDeque<ReadyTask>,
}

/// Whether `i` is the last position of `q` with the least stride.
pub open spec fn last_min_stride(q: Seq<ReadyTask>, i: int) -> bool {
    &&& 0 <= i < q.len()
    &&& forall|k: int| 0 <= k < q.len() ==> q[i].stride <= #[trigger] q[k].stride
    &&& forall|k: int| i < k < q.len() ==> q[i].stride < #[trigger] q[k].stride
}

/// Whether taking out the task at position `i` of `q` gives the result `r`
/// and leaves the queue `q2`.
pub open spec fn fetched(q: Seq<ReadyTask>, i: int, r: Option<ReadyTask>, q2: Seq<ReadyTask>) -> bool {
    &&& r == Some(ReadyTask { pid: q[i].pid, stride: (q[i].stride + BIG_STRIDE / q[i].priority) as usize, priority: q[i].priority })
    &&& q2 == (if i == 0 { q.drop_first() } else { q.update(i, q[0]).drop_first() })
}

impl TaskManager {
    pub fn new() -> (r: TaskManager)
        ensures
            r.ready_queue@ == Seq::<ReadyTask>::empty(),
    {
        TaskManager { ready_queue: VecDeque::new() }
    }

    /// Puts a task back at the end of the ready queue.
    pub fn add(&mut self, task: ReadyTask)
        ensures
            final(self).ready_queue@ == old(self).ready_queue@.push(task),
    {
        self.ready_queue.push_back(task);
    }

    /// Takes out the task with the least stride (the last one among equals)
    /// and advances its stride by `BIG_STRIDE / priority`. The first task
    /// of the queue takes the freed position. `None` where the queue is
    /// empty.
    pub fn fetch(&mut self) -> (r: Option<ReadyTask>)
        requires
            forall|k: int| 0 <= k < old(self).ready_queue@.len() ==> {
                let t = #[trigger] old(self).ready_queue@[k];
                t.priority >= 1 && t.stride + BIG_STRIDE <= usize::MAX
            },
        ensures
            old(self).ready_queue@.len() == 0 ==> r is None && final(self).ready_queue@ == old(self).ready_queue@,
            old(self).ready_queue@.len() > 0 ==> exists|i: int| #[trigger] last_min_stride(old(self).ready_queue@, i)
                && fetched(old(self).ready_queue@, i, r, final(self).ready_queue@),
    {
        let n = self.ready_queue.len();
        if n == 0 {
            return None;
        }
        let mut ret: usize = 0;
        let mut stride = usize::MAX;
        let mut k: usize = 0;
        while k < n
            invariant
                n == self.ready_queue@.len(),
                self.ready_queue@ == old(self).ready_queue@,
                k <= n,
                0 < n,
                k == 0 ==> ret == 0 && stride == usize::MAX,
                k > 0 ==> ret < k && stride == self.ready_queue@[ret as int].stride,
                forall|j: int| 0 <= j < k ==> stride <= #[trigger] self.ready_queue@[j].stride,
                forall|j: int| ret < j < k ==> stride < #[trigger] self.ready_queue@[j].stride,
            decreases n - k,
        {
            if self.ready_queue[k].stride <= stride {
                stride = self.ready_queue[k].stride;
                ret = k;
            }
            k = k + 1;
        }
        let ghost q = self.ready_queue@;
        let t = self.ready_queue.remove(ret).unwrap();
        let picked = ReadyTask { pid: t.pid, stride: t.stride + BIG_STRIDE / t.priority, priority: t.priority };
        if ret > 0 {
            let first = self.ready_queue.pop_front().unwrap();
            self.ready_queue.insert(ret - 1, first);
            assert(self.ready_queue@ =~= q.update(ret as int, q[0]).drop_first());
        } else {
            assert(self.ready_queue@ =~= q.drop_first());
        }
        assert(last_min_stride(q, ret as int));
        assert(fetched(q, ret as int, Some(picked), self.ready_queue@));
        Some(picked)
    }
}

/// The task `d` places after task `current` in a list of `n`, going round.
pub open spec fn round(current: int, d: int, n: int) -> int {
    (current + d) % n
}

/// Whether task `k` of `statuses` is the first ready one after `current`,
/// going round from `current + 1`.
pub open spec fn next_ready(statuses: Seq<TaskStatus>, current: int, k: int) -> bool {
    let n = statuses.len() as int;
    exists|d: int| {
        &&& 1 <= d <= n
        &&& k == #[trigger] round(current, d, n)
        &&& statuses[k] == TaskStatus::Ready
        &&& forall|e: int| 1 <= e < d ==> statuses[#[trigger] round(current, e, n)] != TaskStatus::Ready
    }
}

/// The first ready task after task `current`, going round the task list;
/// `None` where no task is ready.
pub fn find_next_task(statuses: &Vec<TaskStatus>, current: usize) -> (r: Option<usize>)
    requires
        current < statuses@.len(),
    ensures
        r is Some ==> next_ready(statuses@, current as int, r.unwrap() as int),
        r is None ==> forall|k: int| 0 <= k < statuses@.len() ==> #[trigger] statuses@[k] != TaskStatus::Ready,
{
    let n = statuses.len();
    let mut e: usize = 0;
    while e < n
        invariant
            e <= n,
            n == statuses@.len(),
            current < n,
            forall|x: int| 1 <= x < e + 1 ==> statuses@[#[trigger] round(current as int, x, n as int)] != TaskStatus::Ready,
        decreases n - e,
    {
        let id = if e < n - 1 - current { current + e + 1 } else { e - (n - 1 - current) };
        assert(id == round(current as int, e + 1, n as int)) by (nonlinear_arith)
            requires
                current < n,
                e < n,
                id == if e < n - 1 - current { current + e + 1 } else { e - (n - 1 - current) },
        ;
        if statuses[id] == TaskStatus::Ready {
            assert(next_ready(statuses@, current as int, id as int)) by {
                assert(id == round(current as int, e + 1, n as int));
            }
            return Some(id);
        }
        e = e + 1;
    }
    proof {
        assert forall|k: int| 0 <= k < statuses@.len() implies #[trigger] statuses@[k] != TaskStatus::Ready by {
            let e: int = if k > current { k - current } else { k + n - current };
            assert(1 <= e <= n);
            assert((current + e) % (n as int) == k) by (nonlinear_arith)
                requires 0 <= k < n, 0 <= current < n, e == if k > current { k - current } else { k + n - current };
            assert(statuses@[round(current as int, e, n as int)] != TaskStatus::Ready);
        }
    }
    None
}

} // verus!
