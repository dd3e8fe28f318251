//! Physical frames and the pool that hands them out.
use vstd::prelude::*;
use crate::address::PhysPageNum;
use crate::config::{PAGE_SIZE, PPN_LIMIT};

verus! {

/// A uniquely owned physical page together with its contents.
///
/// A handle cannot be copied: whoever holds it owns the page, and the page
/// goes back to its pool only through [`StackFrameAllocator::dealloc`].
pub struct FrameTracker {
    pub ppn: PhysPageNum,
    pub bytes: Vec<u8>,
}

impl FrameTracker {
    /// Whether the handle covers exactly one page.
    pub open spec fn wf(&self) -> bool {
        &&& self.bytes@.len() == PAGE_SIZE
        &&& self.ppn.0 < PPN_LIMIT
    }
}

/// Whether `x` occurs in `v`.
pub fn vec_contains(v: &Vec<u64>, x: u64) -> (r: bool)
    ensures
        r == v@.contains(x),
{
    let mut i: usize = 0;
    while i < v.len()
        invariant
            0 <= i <= v.len(),
            forall|j: int| 0 <= j < i ==> v@[j] != x,
        decreases v.len() - i,
    {
        if v[i] == x {
            return true;
        }
        i = i + 1;
    }
    false
}

/// A pool of physical frames: the never-used pages `[current, end)` and a
/// stack of pages that were given back.
pub struct StackFrameAllocator {
    start: u64,
    current: u64,
    end: u64,
    recycled: Vec<u64>,
}

impl StackFrameAllocator {
    pub closed spec fn wf(&self) -> bool {
        &&& self.start <= self.current <= self.end <= PPN_LIMIT
        &&& self.recycled@.no_duplicates()
        &&& forall|i: int|
            0 <= i < self.recycled@.len() ==> self.start <= #[trigger] self.recycled@[i]
                < self.current
    }

    /// Number of frames that can still be handed out.
    pub closed spec fn free_count(&self) -> nat {
        (self.recycled@.len() + (self.end - self.current)) as nat
    }

    /// Whether page `p` is currently handed out to some owner.
    pub closed spec fn is_allocated(&self, p: u64) -> bool {
        self.start <= p < self.current && !self.recycled@.contains(p)
    }

    /// The pages currently handed out.
    pub closed spec fn allocated(&self) -> Set<u64> {
        Set::new(|p: u64| self.is_allocated(p))
    }

    /// A pool over the physical pages `[start, end)`, all of them free.
    pub fn new(start: PhysPageNum, end: PhysPageNum) -> (r: StackFrameAllocator)
        requires
            start.0 <= end.0 <= PPN_LIMIT,
        ensures
            r.wf(),
            r.free_count() == end.0 - start.0,
            r.allocated() == Set::<u64>::empty(),
    {
        let r = StackFrameAllocator { start: start.0, current: start.0, end: end.0, recycled: Vec::new() };
        assert(r.allocated() =~= Set::<u64>::empty());
        r
    }

    /// Number of frames that can still be handed out.
    pub fn free_frames(&self) -> (r: u128)
        requires
            self.wf(),
        ensures
            r == self.free_count(),
    {
        (self.end - self.current) as u128 + self.recycled.len() as u128
    }

    /// Hands out one zero-filled frame, or `None` when the pool is exhausted.
    pub fn alloc_frame(&mut self) -> (r: Option<FrameTracker>)
        requires
            old(self).wf(),
        ensures
            final(self).wf(),
            r.is_some() == (old(self).free_count() > 0),
            r.is_some() ==> {
                let f = r.unwrap();
                &&& f.wf()
                &&& f.bytes@ == Seq::new(PAGE_SIZE as nat, |i: int| 0u8)
                &&& !old(self).allocated().contains(f.ppn.0)
                &&& final(self).allocated() == old(self).allocated().insert(f.ppn.0)
                &&& final(self).free_count() == old(self).free_count() - 1
            },
            r.is_none() ==> *final(self) == *old(self),
    {
        let p: u64;
        if self.recycled.len() > 0 {
            let ghost old_rec = self.recycled@;
            p = self.recycled.pop().unwrap();
            assert(old_rec == self.recycled@.push(p));
            assert(old_rec[old_rec.len() - 1] == p);
            proof {
                assert forall|q: u64| #[trigger] self.is_allocated(q) == (old(self).is_allocated(q) || q == p) by {
                    if q != p {
                        assert(old_rec.contains(q) ==> self.recycled@.contains(q)) by {
                            if old_rec.contains(q) {
                                let k = choose|k: int| 0 <= k < old_rec.len() && old_rec[k] == q;
                                assert(k < old_rec.len() - 1);
                                assert(self.recycled@[k] == q);
                            }
                        }
                    } else {
                        assert(!self.recycled@.contains(p)) by {
                            if self.recycled@.contains(p) {
                                let k = choose|k: int| 0 <= k < self.recycled@.len() && self.recycled@[k] == p;
                                assert(old_rec[k] == old_rec[old_rec.len() - 1]);
                            }
                        }
                    }
                }
                assert(self.allocated() =~= old(self).allocated().insert(p));
            }
        } else if self.current < self.end {
            p = self.current;
            self.current = self.current + 1;
            assert(self.allocated() =~= old(self).allocated().insert(p));
        } else {
            return None;
        }
        let bytes: Vec<u8> = vec![0u8; PAGE_SIZE as usize];
        Some(FrameTracker { ppn: PhysPageNum(p), bytes })
    }

    /// Takes a frame back into the pool. A handle whose page is not currently
    /// handed out by this pool is dropped without effect.
    pub fn dealloc_frame(&mut self, frame: FrameTracker)
        requires
            old(self).wf(),
        ensures
            final(self).wf(),
            old(self).allocated().contains(frame.ppn.0) ==> {
                &&& final(self).allocated() == old(self).allocated().remove(frame.ppn.0)
                &&& final(self).free_count() == old(self).free_count() + 1
            },
            !old(self).allocated().contains(frame.ppn.0) ==> *final(self) == *old(self),
    {
        let p = frame.ppn.0;
        if self.start <= p && p < self.current && !vec_contains(&self.recycled, p) {
            let ghost old_rec = self.recycled@;
            self.recycled.push(p);
            assert(self.recycled@ == old_rec.push(p));
            proof {
                assert forall|i: int| 0 <= i < self.recycled@.len() implies self.start <= #[trigger] self.recycled@[i] < self.current by {
                    if i < old_rec.len() {
                        assert(self.recycled@[i] == old_rec[i]);
                    }
                }
                assert forall|q: u64| #[trigger] self.recycled@.contains(q) == (old_rec.contains(q) || q == p) by {
                    if self.recycled@.contains(q) && q != p {
                        let k = choose|k: int| 0 <= k < self.recycled@.len() && self.recycled@[k] == q;
                        assert(k < old_rec.len());
                        assert(old_rec[k] == q);
                    }
                    if old_rec.contains(q) {
                        let k = choose|k: int| 0 <= k < old_rec.len() && old_rec[k] == q;
                        assert(self.recycled@[k] == q);
                    }
                    if q == p {
                        assert(self.recycled@[old_rec.len() as int] == p);
                    }
                }
                assert(self.allocated() =~= old(self).allocated().remove(p));
            }
        }
    }
}

/// Two frames that the pool hands out one after the other, with none given
/// back in between, are different pages: a page is never handed out while
/// it is still held.
pub proof fn lemma_successive_frames_differ(
    a0: StackFrameAllocator,
    a1: StackFrameAllocator,
    a2: StackFrameAllocator,
    first: u64,
    second: u64,
)
    requires
        a1.allocated() == a0.allocated().insert(first),
        !a1.allocated().contains(second),
        a2.allocated() == a1.allocated().insert(second),
    ensures
        first != second,
        a2.allocated().contains(first),
        a2.allocated().contains(second),
{
}

} // verus!
