//! The `mmap` and `munmap` system calls: argument checks in front of the
//! address-space service.
use vstd::prelude::*;
use crate::address::{ceil_spec, floor_spec, VirtAddr};
use crate::config::{PAGE_SIZE, VA_LIMIT};
use crate::frame_allocator::StackFrameAllocator;
use crate::memory_set::{
    first_intersecting, frames_in_pool, frames_owned, intersects_any, judge_ok, mmap_post, munmap_post, owned, MapPermission, MapType,
    MemorySet, MAP_R, MAP_U, MAP_W, MAP_X,
};

verus! {

/// Region permissions for an `mmap` protection word: user access, plus
/// read (bit 0), write (bit 1) and execute (bit 2) as the word says.
pub open spec fn prot_perm(prot: usize) -> u8 {
    MAP_U | (if prot & 1 != 0 { MAP_R } else { 0u8 }) | (if prot & 2 != 0 { MAP_W } else { 0u8 }) | (
    if prot & 4 != 0 { MAP_X } else { 0u8 })
}

/// Whether `prot` is a valid protection word: some of bits 0 to 2 and no other.
pub open spec fn prot_ok(prot: usize) -> bool {
    prot & !7usize == 0 && prot & 7usize != 0
}

/// Whether every page of `[start, start + len)` either is owned by some
/// region or lies in no region, for the regions of `ms`.
pub open spec fn mmap_allowed(ms: MemorySet, start: usize, len: usize) -> bool {
    judge_ok(ms.regions(), floor_spec(start as int) as u64, ceil_spec(start + len) as u64)
}

/// Whether every page of `[start, start + len)` is owned by some region of `ms`.
pub open spec fn munmap_allowed(ms: MemorySet, start: usize, len: usize) -> bool {
    forall|p: u64| floor_spec(start as int) <= p < ceil_spec(start + len) ==> #[trigger] owned(ms.regions(), p)
}

/// Maps `len` bytes from `start` with the protection word `prot` into the
/// address space `ms`. Returns 0 on success and -1, changing nothing, where
/// `start` is not page-aligned, `prot` is not valid, the range runs past the
/// user address space, some page of it lies in a region that has no frame
/// for it, or the frame pool could run short. A length of 0 is a successful
/// no-op.
pub fn sys_mmap(ms: &mut MemorySet, start: usize, len: usize, prot: usize, alloc: &mut StackFrameAllocator) -> (r: isize)
    requires
        old(ms).wf(),
        old(alloc).wf(),
    ensures
        final(ms).wf(),
        final(alloc).wf(),
        r == 0 || r == -1,
        final(alloc).free_count() + final(ms).held() == old(alloc).free_count() + old(ms).held(),
        frames_in_pool(old(ms).regions(), old(alloc).allocated()) ==> frames_in_pool(final(ms).regions(), final(alloc).allocated()),
        frames_owned(*old(ms), old(alloc).allocated()) ==> frames_owned(*final(ms), final(alloc).allocated()),
        len == 0 ==> r == 0,
        r == -1 || len == 0 ==> *final(ms) == *old(ms) && *final(alloc) == *old(alloc),
        len > 0 ==> (r == 0 <==> {
            &&& start as int % PAGE_SIZE as int == 0
            &&& prot_ok(prot)
            &&& start + len <= VA_LIMIT
            &&& mmap_allowed(*old(ms), start, len)
            &&& old(alloc).free_count() >= 6 * (ceil_spec(start + len) - floor_spec(start as int))
        }),
        len > 0 && r == 0 ==> mmap_post(
            old(ms).regions(),
            final(ms).regions(),
            old(ms).translations(),
            final(ms).translations(),
            floor_spec(start as int) as u64,
            ceil_spec(start + len) as u64,
            prot_perm(prot),
        ),
{
    if len == 0 {
        return 0;
    }
    if start % 4096 != 0 {
        return -1;
    }
    if prot & !7usize != 0 || prot & 7usize == 0 {
        return -1;
    }
    if start as u64 > VA_LIMIT || len as u64 > VA_LIMIT - start as u64 {
        return -1;
    }
    let vpn_start = VirtAddr(start as u64).floor();
    let vpn_end = VirtAddr(start as u64 + len as u64).ceil();
    let rb: u8 = if prot & 1 != 0 { MAP_R } else { 0u8 };
    let wb: u8 = if prot & 2 != 0 { MAP_W } else { 0u8 };
    let xb: u8 = if prot & 4 != 0 { MAP_X } else { 0u8 };
    let permission = MapPermission::from_bits(MAP_U | rb | wb | xb);
    if !ms.judge_map_right(vpn_start, vpn_end) {
        return -1;
    }
    let pages = (vpn_end.0 - vpn_start.0) as u128;
    if alloc.free_frames() / 6 < pages {
        return -1;
    }
    ms.my_mmap(vpn_start, vpn_end, permission, alloc);
    0
}

/// Unmaps `len` bytes from `start` out of the address space `ms`. Returns 0
/// on success and -1, changing nothing, where `start` is not page-aligned,
/// the range runs past the user address space, or some page of the range
/// has no frame in any region. A length of 0 at an aligned start is a
/// successful no-op.
pub fn sys_munmap(ms: &mut MemorySet, start: usize, len: usize, alloc: &mut StackFrameAllocator) -> (r: isize)
    requires
        old(ms).wf(),
        old(alloc).wf(),
    ensures
        final(ms).wf(),
        final(alloc).wf(),
        r == 0 || r == -1,
        final(alloc).free_count() >= old(alloc).free_count(),
        frames_in_pool(old(ms).regions(), old(alloc).allocated()) ==> frames_in_pool(final(ms).regions(), final(alloc).allocated())
            && final(alloc).free_count() + final(ms).held() == old(alloc).free_count() + old(ms).held(),
        frames_owned(*old(ms), old(alloc).allocated()) ==> frames_owned(*final(ms), final(alloc).allocated()),
        start as int % PAGE_SIZE as int != 0 ==> r == -1,
        len == 0 && start as int % PAGE_SIZE as int == 0 ==> r == 0,
        r == -1 || len == 0 ==> *final(ms) == *old(ms) && *final(alloc) == *old(alloc),
        len > 0 ==> (r == 0 <==> {
            &&& start as int % PAGE_SIZE as int == 0
            &&& start + len <= VA_LIMIT
            &&& munmap_allowed(*old(ms), start, len)
        }),
        len > 0 && r == 0 ==> munmap_post(
            old(ms).regions(),
            final(ms).regions(),
            old(ms).translations(),
            final(ms).translations(),
            floor_spec(start as int) as u64,
            ceil_spec(start + len) as u64,
        ),
{
    if start % 4096 != 0 {
        return -1;
    }
    if len == 0 {
        return 0;
    }
    if start as u64 > VA_LIMIT || len as u64 > VA_LIMIT - start as u64 {
        return -1;
    }
    let vpn_start = VirtAddr(start as u64).floor();
    let vpn_end = VirtAddr(start as u64 + len as u64).ceil();
    if !ms.judge_unmap_right(vpn_start, vpn_end) {
        return -1;
    }
    ms.my_unmap(vpn_start, vpn_end, alloc);
    0
}

/// Maps the pages that cover `[start, end)` as one new framed region with
/// `permission`, where they meet no region; returns whether it did. Fails,
/// changing nothing, where some region meets them or the frame pool holds
/// fewer than three frames per page.
pub fn used_map(ms: &mut MemorySet, start: VirtAddr, end: VirtAddr, permission: MapPermission, alloc: &mut StackFrameAllocator) -> (r: bool)
    requires
        old(ms).wf(),
        old(alloc).wf(),
        end.0 <= VA_LIMIT,
    ensures
        final(ms).wf(),
        final(alloc).wf(),
        intersects_any(old(ms).regions(), floor_spec(start.0 as int) as u64, ceil_spec(end.0 as int) as u64) ==> !r
            && *final(ms) == *old(ms),
        r == (!intersects_any(old(ms).regions(), floor_spec(start.0 as int) as u64, ceil_spec(end.0 as int) as u64)
            && old(alloc).free_count() >= 3 * (ceil_spec(end.0 as int) - floor_spec(start.0 as int))),
        !r ==> *final(ms) == *old(ms) && *final(alloc) == *old(alloc),
        r ==> final(ms).regions().len() == old(ms).regions().len() + 1
            && final(ms).regions().drop_last() == old(ms).regions()
            && final(ms).regions().last().0 == floor_spec(start.0 as int)
            && final(ms).regions().last().1 == ceil_spec(end.0 as int)
            && final(ms).regions().last().2 == MapType::Framed
            && final(ms).regions().last().3 == permission.bits,
{
    if ms.include_framed_area(start.floor(), end.ceil()) {
        return false;
    }
    let (ok, _) = ms.insert_framed_area(start, end, permission, alloc);
    proof {
        if ok {
            assert(ms.regions().drop_last() =~= old(ms).regions());
        }
    }
    ok
}

/// Unmaps the pages that cover `[start, end)` through the first region that
/// meets them and removes that region, as
/// [`MemorySet::cancel_framed_area`] does; fails, changing nothing, where no
/// region meets them.
pub fn used_unmap(ms: &mut MemorySet, start: VirtAddr, end: VirtAddr, alloc: &mut StackFrameAllocator) -> (r: bool)
    requires
        old(ms).wf(),
        old(alloc).wf(),
        end.0 <= VA_LIMIT,
    ensures
        final(ms).wf(),
        final(alloc).wf(),
        !intersects_any(old(ms).regions(), floor_spec(start.0 as int) as u64, ceil_spec(end.0 as int) as u64) ==> !r
            && *final(ms) == *old(ms),
        intersects_any(old(ms).regions(), floor_spec(start.0 as int) as u64, ceil_spec(end.0 as int) as u64) ==> ({
            let s = floor_spec(start.0 as int);
            let e = ceil_spec(end.0 as int);
            &&& final(ms).regions() == old(ms).regions().remove(first_intersecting(old(ms).regions(), s as u64, e as u64))
            &&& final(ms).translations() == old(ms).translations().remove_keys(Set::new(|k: u64| s <= k < e))
            &&& r == (forall|k: u64| s <= k < e ==> #[trigger] old(ms).translations().contains_key(k))
        }),
{
    if !ms.include_framed_area(start.floor(), end.ceil()) {
        return false;
    }
    ms.cancel_framed_area(start, end, alloc)
}

} // verus!
