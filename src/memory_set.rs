//! Mapped regions and address spaces.
use vstd::prelude::*;
use std::collections::BTreeMap;
use crate::address::{ceil_spec, floor_spec, PhysAddr, PhysPageNum, VPNRange, VirtAddr, VirtPageNum};
use crate::config::{
    MEMORY_END, PAGE_SIZE, TRAMPOLINE, TRAP_CONTEXT, USER_STACK_SIZE, VA_LIMIT, VPN_LIMIT,
};
use crate::elf::{
    elf64_header, elf_entry, elf_program_headers, elf_table_ok, has_elf_magic, load_pred,
    load_segments, read_entry, read_program_headers, ElfError, ProgramHeaderInfo, PF_R, PF_W, PF_X,
};
use crate::frame_allocator::{FrameTracker, StackFrameAllocator};
use crate::page_table::{
    lemma_node_in_pool, lemma_nodes_repool, leaf_key, mapped_entry, translate_spec, PTEFlags, PageTable, PageTableEntry,
};

verus! {

broadcast use vstd::std_specs::btree::group_btree_axioms;

/// How a region finds the physical page of each of its virtual pages.
#[derive(Clone, Copy, Debug, PartialEq, Eq, Structural)]
pub enum MapType {
    /// The physical page number equals the virtual page number.
    Identical,
    /// Each page gets a frame of its own.
    Framed,
}

/// Region may be read.
pub const MAP_R: u8 = 2;
/// Region may be written.
pub const MAP_W: u8 = 4;
/// Region may be executed.
pub const MAP_X: u8 = 8;
/// Region is reachable from user mode.
pub const MAP_U: u8 = 16;

/// The permissions of a region, at the bit positions of the page-table flags.
#[derive(Clone, Copy, Debug, PartialEq, Eq, Structural)]
pub struct MapPermission {
    pub bits: u8,
}

impl MapPermission {
    /// The permission set with exactly the bits of `bits`.
    pub fn from_bits(bits: u8) -> (r: MapPermission)
        ensures
            r.bits == bits,
    {
        MapPermission { bits }
    }

    /// The bits of both sets.
    pub fn union(&self, other: MapPermission) -> (r: MapPermission)
        ensures
            r.bits == self.bits | other.bits,
    {
        MapPermission { bits: self.bits | other.bits }
    }

    /// Removes every permission.
    pub fn clear(&mut self)
        ensures
            final(self).bits == 0,
    {
        self.bits = 0;
    }
}

/// How mapping every page of `[start, end)` of a region of type `kind` and
/// permissions `perm` turns the translations `before` into `after`, leaving
/// the region with the frames `frames`: a page that was mapped stays as it
/// was and gets no frame; any other page of the range gets mapped, to itself
/// for an identical region, to a frame of its own for a framed one.
pub open spec fn realized(
    start: u64,
    end: u64,
    kind: MapType,
    perm: u8,
    frames: Map<u64, u64>,
    before: Map<u64, PageTableEntry>,
    after: Map<u64, PageTableEntry>,
) -> bool {
    &&& forall|k: u64|
        !(start <= k < end) ==> (#[trigger] after.contains_key(k) == before.contains_key(k) && (
        before.contains_key(k) ==> after[k] == before[k]))
    &&& forall|k: u64| start <= k < end ==> #[trigger] after.contains_key(k)
    &&& forall|k: u64|
        start <= k < end && #[trigger] before.contains_key(k) ==> after[k] == before[k]
            && !frames.contains_key(k)
    &&& forall|k: u64|
        start <= k < end && !#[trigger] before.contains_key(k) ==> (if kind == MapType::Framed {
            frames.contains_key(k) && after[k] == mapped_entry(frames[k], perm)
        } else {
            after[k] == mapped_entry(k, perm)
        })
    &&& forall|k: u64| #[trigger] frames.contains_key(k) ==> start <= k < end
}

/// Whether the frames `fr` are distinct pages, all held in `pool` and none
/// in `before`.
pub open spec fn fresh_frames(fr: Map<u64, u64>, before: Set<u64>, pool: Set<u64>) -> bool {
    &&& forall|k: u64| #[trigger] fr.contains_key(k) ==> pool.contains(fr[k]) && !before.contains(fr[k])
    &&& forall|k1: u64, k2: u64| #[trigger] fr.contains_key(k1) && #[trigger] fr.contains_key(k2) && k1 != k2 ==> fr[k1] != fr[k2]
}

/// Unmaps every page of `pages` from `page_table`.
fn unmap_pages(page_table: &mut PageTable, pages: &Vec<u64>)
    requires
        old(page_table).wf(),
        forall|i: int| 0 <= i < pages@.len() ==> #[trigger] pages@[i] < VPN_LIMIT,
    ensures
        final(page_table).wf(),
        final(page_table).owns_root() == old(page_table).owns_root(),
        final(page_table).frame_count() == old(page_table).frame_count(),
        forall|k: u64| #[trigger] final(page_table)@.contains_key(k) == (old(page_table)@.contains_key(k) && !pages@.contains(k)),
        forall|k: u64| #[trigger] final(page_table)@.contains_key(k) ==> final(page_table)@[k] == old(page_table)@[k],
        forall|p: u64| #[trigger] final(page_table).is_node(p) == old(page_table).is_node(p),
        forall|pool: Set<u64>| #[trigger] old(page_table).nodes_in_pool(pool) ==> final(page_table).nodes_in_pool(pool),
{
    let mut i: usize = 0;
    while i < pages.len()
        invariant
            page_table.wf(),
            page_table.owns_root() == old(page_table).owns_root(),
            page_table.frame_count() == old(page_table).frame_count(),
            i <= pages@.len(),
            forall|j: int| 0 <= j < pages@.len() ==> #[trigger] pages@[j] < VPN_LIMIT,
            forall|k: u64| #[trigger] page_table@.contains_key(k) == (old(page_table)@.contains_key(k) && !pages@.take(i as int).contains(k)),
            forall|k: u64| #[trigger] page_table@.contains_key(k) ==> page_table@[k] == old(page_table)@[k],
            forall|p: u64| #[trigger] page_table.is_node(p) == old(page_table).is_node(p),
            forall|pool: Set<u64>| #[trigger] old(page_table).nodes_in_pool(pool) ==> page_table.nodes_in_pool(pool),
        decreases pages@.len() - i,
    {
        let k = pages[i];
        assert(leaf_key(k) == k);
        page_table.unmap(VirtPageNum(k));
        proof {
            let t0 = pages@.take(i as int);
            let t1 = pages@.take(i + 1);
            assert(t1 =~= t0.push(k));
            assert forall|q: u64| #[trigger] t1.contains(q) == (t0.contains(q) || q == k) by {
                if t1.contains(q) && q != k {
                    let j = choose|j: int| 0 <= j < t1.len() && t1[j] == q;
                    assert(t0[j] == q);
                }
                if t0.contains(q) {
                    let j = choose|j: int| 0 <= j < t0.len() && t0[j] == q;
                    assert(t1[j] == q);
                }
                if q == k {
                    assert(t1[i as int] == k);
                }
            }
        }
        i = i + 1;
    }
    assert(pages@.take(i as int) =~= pages@);
}

/// A contiguous range of virtual pages with one mapping type and one set of
/// permissions; a framed region owns the frames of the pages it has mapped.
pub struct MapArea {
    vpn_range: VPNRange,
    data_frames: BTreeMap<u64, FrameTracker>,
    map_type: MapType,
    map_perm: MapPermission,
}

impl MapArea {
    /// First page of the region.
    pub closed spec fn start(&self) -> u64 {
        self.vpn_range.start.0
    }

    /// Page right after the region.
    pub closed spec fn end(&self) -> u64 {
        self.vpn_range.end.0
    }

    pub closed spec fn kind(&self) -> MapType {
        self.map_type
    }

    pub closed spec fn perm(&self) -> u8 {
        self.map_perm.bits
    }

    /// The pages the region owns a frame for, with the frame's page number.
    pub closed spec fn frames(&self) -> Map<u64, u64> {
        Map::new(|k: u64| self.data_frames@.contains_key(k), |k: u64| self.data_frames@[k].ppn.0)
    }

    /// Whether page `vpn` lies in the region's range.
    pub open spec fn contains_page(&self, vpn: int) -> bool {
        self.start() <= vpn < self.end()
    }

    pub closed spec fn wf(&self) -> bool {
        &&& self.vpn_range.end.0 <= VPN_LIMIT
        &&& self.data_frames@.dom().finite()
        &&& forall|k: u64| #[trigger]
            self.data_frames@.contains_key(k) ==> self.vpn_range.start.0 <= k
                < self.vpn_range.end.0 && self.data_frames@[k].wf()
        &&& self.map_type == MapType::Identical ==> self.data_frames@.len() == 0
    }

    /// Number of frames the region owns.
    pub closed spec fn frame_count(&self) -> nat {
        self.data_frames@.len()
    }

    proof fn lemma_frame_count(&self)
        ensures
            self.frames().len() == self.frame_count(),
            self.frames().dom() == self.data_frames@.dom(),
    {
        assert(self.frames().dom() =~= self.data_frames@.dom());
    }

    /// The region of the pages that cover the bytes `[start_va, end_va)`.
    pub fn new(start_va: VirtAddr, end_va: VirtAddr, map_type: MapType, map_perm: MapPermission) -> (r: MapArea)
        requires
            end_va.0 <= VA_LIMIT,
        ensures
            r.wf(),
            r.start() == floor_spec(start_va.0 as int),
            r.end() == ceil_spec(end_va.0 as int),
            r.kind() == map_type,
            r.perm() == map_perm.bits,
            r.frames() == Map::<u64, u64>::empty(),
            r.frame_count() == 0,
    {
        let start_vpn = start_va.floor();
        let end_vpn = end_va.ceil();
        let r = MapArea {
            vpn_range: VPNRange::new(start_vpn, end_vpn),
            data_frames: BTreeMap::new(),
            map_type,
            map_perm,
        };
        assert(r.frames() =~= Map::<u64, u64>::empty());
        r
    }

    pub fn get_start(&self) -> (r: VirtPageNum)
        ensures
            r.0 == self.start(),
    {
        self.vpn_range.get_start()
    }

    pub fn get_end(&self) -> (r: VirtPageNum)
        ensures
            r.0 == self.end(),
    {
        self.vpn_range.get_end()
    }

    pub fn get_type(&self) -> (r: MapType)
        ensures
            r == self.kind(),
    {
        self.map_type
    }

    pub fn get_perm(&self) -> (r: MapPermission)
        ensures
            r.bits == self.perm(),
    {
        self.map_perm
    }

    /// Whether the region owns a frame for page `vpn`.
    pub fn owns(&self, vpn: VirtPageNum) -> (r: bool)
        ensures
            r == self.frames().contains_key(vpn.0),
    {
        self.data_frames.contains_key(&vpn.0)
    }

    /// Contents of the frame the region owns for page `vpn`, if any.
    pub fn page(&self, vpn: VirtPageNum) -> (r: Option<&Vec<u8>>)
        ensures
            r is Some == self.frames().contains_key(vpn.0),
            r is Some ==> r.unwrap()@ == self.page_bytes(vpn.0),
    {
        match self.data_frames.get(&vpn.0) {
            Some(f) => Some(&f.bytes),
            None => None,
        }
    }

    /// Number of frames the region owns.
    pub fn frames_len(&self) -> (r: usize)
        requires
            self.wf(),
        ensures
            r == self.frame_count(),
            r == self.frames().len(),
    {
        proof {
            assert(self.frames().dom() =~= self.data_frames@.dom());
        }
        self.data_frames.len()
    }

    /// Maps page `vpn` of the region: to the page of the same number for an
    /// identical region; for a framed one, to a fresh zeroed frame that the
    /// region then owns. Where the page table already maps `vpn`, nothing
    /// changes and a frame taken for it goes straight back to the pool.
    pub fn map_one(&mut self, page_table: &mut PageTable, vpn: VirtPageNum, alloc: &mut StackFrameAllocator) -> (r: bool)
        requires
            old(self).wf(),
            old(page_table).wf(),
            old(alloc).wf(),
            old(alloc).free_count() >= 3,
            old(self).contains_page(vpn.0 as int),
            !old(self).frames().contains_key(vpn.0),
        ensures
            final(self).wf(),
            final(page_table).wf(),
            final(alloc).wf(),
            final(page_table).owns_root() == old(page_table).owns_root(),
            final(self).start() == old(self).start(),
            final(self).end() == old(self).end(),
            final(self).kind() == old(self).kind(),
            final(self).perm() == old(self).perm(),
            r == !old(page_table)@.contains_key(vpn.0),
            !r ==> final(page_table)@ == old(page_table)@ && final(self).frames() == old(self).frames(),
            r && old(self).kind() == MapType::Identical ==> final(self).frames() == old(self).frames()
                && final(page_table)@ == old(page_table)@.insert(vpn.0, mapped_entry(vpn.0, old(self).perm())),
            r && old(self).kind() == MapType::Framed ==> {
                &&& final(self).frames().dom() == old(self).frames().dom().insert(vpn.0)
                &&& (forall|k: u64| k != vpn.0 && #[trigger] old(self).frames().contains_key(k)
                    ==> final(self).frames()[k] == old(self).frames()[k])
                &&& final(page_table)@ == old(page_table)@.insert(
                    vpn.0,
                    mapped_entry(final(self).frames()[vpn.0], old(self).perm()),
                )
            },
            final(alloc).free_count() + 3 >= old(alloc).free_count(),
            final(alloc).free_count() + final(page_table).frame_count() + final(self).frame_count()
                == old(alloc).free_count() + old(page_table).frame_count() + old(self).frame_count(),
            old(alloc).allocated().subset_of(final(alloc).allocated()),
            forall|k: u64| #[trigger] final(self).frames().contains_key(k) && !old(self).frames().contains_key(k)
                ==> !old(alloc).allocated().contains(final(self).frames()[k]) && final(alloc).allocated().contains(final(self).frames()[k]),
            r && old(self).kind() == MapType::Framed ==> final(self).page_bytes(vpn.0) == Seq::new(PAGE_SIZE as nat, |i: int| 0u8),
            old(page_table).nodes_in_pool(old(alloc).allocated()) ==> final(page_table).nodes_in_pool(final(alloc).allocated()),
            forall|p: u64| #[trigger] final(page_table).is_node(p) ==> old(page_table).is_node(p) || !old(alloc).allocated().contains(p),
            forall|p: u64| #[trigger] old(page_table).is_node(p) ==> final(page_table).is_node(p),
            old(page_table).nodes_in_pool(old(alloc).allocated()) && final(self).frames().contains_key(vpn.0) && !old(self).frames().contains_key(vpn.0)
                ==> !final(page_table).is_node(final(self).frames()[vpn.0]),
            forall|k: u64| k != vpn.0 && #[trigger] old(self).frames().contains_key(k) ==> final(self).page_bytes(k) == old(self).page_bytes(k),
    {
        let flags = PTEFlags::from_bits(self.map_perm.bits);
        match self.map_type {
            MapType::Identical => {
                page_table.map(vpn, PhysPageNum(vpn.0), flags, alloc)
            },
            MapType::Framed => {
                let frame = alloc.alloc_frame().unwrap();
                let ppn = frame.ppn;
                let ghost a1 = *alloc;
                let ghost pt1 = *page_table;
                proof {
                    if old(page_table).nodes_in_pool(old(alloc).allocated()) {
                        assert forall|q: u64| #[trigger] pt1.is_node(q) implies a1.allocated().contains(q) by {
                            lemma_node_in_pool(pt1, old(alloc).allocated(), q);
                        }
                        lemma_nodes_repool(pt1, old(alloc).allocated(), a1.allocated());
                    }
                }
                if page_table.map(vpn, ppn, flags, alloc) {
                    proof {
                        if old(page_table).nodes_in_pool(old(alloc).allocated()) {
                            assert(!page_table.is_node(ppn.0)) by {
                                if page_table.is_node(ppn.0) {
                                    if pt1.is_node(ppn.0) {
                                        lemma_node_in_pool(pt1, old(alloc).allocated(), ppn.0);
                                    }
                                }
                            }
                        }
                    }
                    self.data_frames.insert(vpn.0, frame);
                    proof {
                        assert(self.frames().dom() =~= old(self).frames().dom().insert(vpn.0));
                        assert(!old(self).data_frames@.contains_key(vpn.0));
                    }
                    true
                } else {
                    assert(a1.allocated().contains(ppn.0));
                    let ghost a2 = *alloc;
                    alloc.dealloc_frame(frame);
                    proof {
                        if old(page_table).nodes_in_pool(old(alloc).allocated()) {
                            assert(*page_table == pt1);
                            assert(!page_table.is_node(ppn.0)) by {
                                if page_table.is_node(ppn.0) {
                                    lemma_node_in_pool(*old(page_table), old(alloc).allocated(), ppn.0);
                                }
                            }
                            assert forall|q: u64| #[trigger] page_table.is_node(q) implies alloc.allocated().contains(q) by {
                                lemma_node_in_pool(*old(page_table), old(alloc).allocated(), q);
                                assert(q != ppn.0);
                            }
                            lemma_nodes_repool(*page_table, old(alloc).allocated(), alloc.allocated());
                        }
                    }
                    proof {
                        assert(old(alloc).allocated().subset_of(alloc.allocated())) by {
                            assert forall|q: u64| old(alloc).allocated().contains(q) implies #[trigger] alloc.allocated().contains(q) by {
                                assert(q != ppn.0);
                            }
                        }
                    }
                    false
                }
            },
        }
    }

    /// Maps every page of the region, as [`MapArea::map_one`] does. A framed
    /// region checks first that the pool holds three frames per page, and
    /// otherwise returns `false` changing nothing. An identical region, which
    /// takes frames only for table pages, checks page by page; where the
    /// pool runs short it unmaps the pages it added and returns `false`,
    /// leaving the translations as they were.
    pub fn map(&mut self, page_table: &mut PageTable, alloc: &mut StackFrameAllocator) -> (r: bool)
        requires
            old(self).wf(),
            old(page_table).wf(),
            old(alloc).wf(),
            old(self).frames() == Map::<u64, u64>::empty(),
        ensures
            old(alloc).free_count() >= 3 * (old(self).end() - old(self).start()) ==> r,
            old(self).kind() == MapType::Framed ==> r == (old(alloc).free_count() >= 3 * (old(self).end() - old(self).start())),
            old(self).kind() == MapType::Framed && !r ==> *final(self) == *old(self) && *final(page_table) == *old(page_table)
                && *final(alloc) == *old(alloc),
            !r ==> final(self).frames() == old(self).frames() && final(page_table)@ == old(page_table)@,
            final(self).wf(),
            final(page_table).wf(),
            final(alloc).wf(),
            final(page_table).owns_root() == old(page_table).owns_root(),
            final(self).start() == old(self).start(),
            final(self).end() == old(self).end(),
            final(self).kind() == old(self).kind(),
            final(self).perm() == old(self).perm(),
            r ==> realized(
                old(self).start(),
                old(self).end(),
                old(self).kind(),
                old(self).perm(),
                final(self).frames(),
                old(page_table)@,
                final(page_table)@,
            ),
            old(self).start() <= old(self).end() ==> final(alloc).free_count() + 3 * (old(self).end()
                - old(self).start()) >= old(alloc).free_count(),
            old(self).end() <= old(self).start() ==> final(alloc).free_count() == old(alloc).free_count(),
            final(alloc).free_count() + final(page_table).frame_count() + final(self).frame_count()
                == old(alloc).free_count() + old(page_table).frame_count() + old(self).frame_count(),
            old(alloc).allocated().subset_of(final(alloc).allocated()),
            fresh_frames(final(self).frames(), old(alloc).allocated(), final(alloc).allocated()),
            old(page_table).nodes_in_pool(old(alloc).allocated()) ==> final(page_table).nodes_in_pool(final(alloc).allocated()),
            forall|p: u64| #[trigger] final(page_table).is_node(p) ==> old(page_table).is_node(p) || !old(alloc).allocated().contains(p),
            forall|p: u64| #[trigger] old(page_table).is_node(p) ==> final(page_table).is_node(p),
            old(page_table).nodes_in_pool(old(alloc).allocated()) ==> forall|k: u64| #[trigger] final(self).frames().contains_key(k)
                ==> !final(page_table).is_node(final(self).frames()[k]),
            forall|k: u64| #[trigger] final(self).frames().contains_key(k) ==> final(self).page_bytes(k) == Seq::new(PAGE_SIZE as nat, |i: int| 0u8),
    {
        let start = self.vpn_range.get_start().0;
        let end = self.vpn_range.get_end().0;
        if self.map_type == MapType::Framed && start < end && alloc.free_frames() < 3 * ((end - start) as u128) {
            return false;
        }
        let mut vpn = start;
        let mut added: Vec<u64> = Vec::new();
        while vpn < end
            invariant
                forall|k: u64| #[trigger] added@.contains(k) <==> start <= k < vpn && !old(page_table)@.contains_key(k),
                old(self).frames() == Map::<u64, u64>::empty(),
                forall|i: int| 0 <= i < added@.len() ==> #[trigger] added@[i] < VPN_LIMIT,
                self.wf(),
                page_table.wf(),
                alloc.wf(),
                page_table.owns_root() == old(page_table).owns_root(),
                self.start() == start,
                self.end() == end,
                self.kind() == old(self).kind(),
                self.perm() == old(self).perm(),
                start <= vpn,
                vpn == start || vpn <= end,
                end <= VPN_LIMIT,
                start == old(self).start(),
                end == old(self).end(),
                old(self).kind() == MapType::Framed || old(alloc).free_count() >= 3 * (end - start) ==> alloc.free_count() >= 3 * (end - vpn),
                alloc.free_count() + 3 * (vpn - start) >= old(alloc).free_count(),
                vpn == start ==> alloc.free_count() == old(alloc).free_count(),
                alloc.free_count() + page_table.frame_count() + self.frame_count()
                    == old(alloc).free_count() + old(page_table).frame_count() + old(self).frame_count(),
                old(alloc).allocated().subset_of(alloc.allocated()),
                fresh_frames(self.frames(), old(alloc).allocated(), alloc.allocated()),
                forall|k: u64| #[trigger] self.frames().contains_key(k) ==> self.page_bytes(k) == Seq::new(PAGE_SIZE as nat, |i: int| 0u8),
                old(page_table).nodes_in_pool(old(alloc).allocated()) ==> page_table.nodes_in_pool(alloc.allocated()),
                forall|p: u64| #[trigger] page_table.is_node(p) ==> old(page_table).is_node(p) || !old(alloc).allocated().contains(p),
                forall|p: u64| #[trigger] old(page_table).is_node(p) ==> page_table.is_node(p),
                old(page_table).nodes_in_pool(old(alloc).allocated()) ==> forall|k: u64| #[trigger] self.frames().contains_key(k)
                    ==> !page_table.is_node(self.frames()[k]),
                realized(start, vpn, self.kind(), self.perm(), self.frames(), old(page_table)@, page_table@),
                forall|k: u64| #[trigger] self.frames().contains_key(k) ==> start <= k < vpn,
            decreases end - vpn,
        {
            let ghost before = page_table@;
            let ghost fr = self.frames();
            if alloc.free_frames() < 3 {
                proof {
                    assert(self.kind() == MapType::Identical);
                    assert(self.frames() =~= Map::<u64, u64>::empty());
                }
                unmap_pages(page_table, &added);
                proof {
                    let o = old(page_table)@;
                    assert(page_table@ =~= o) by {
                        assert forall|k: u64| #[trigger] page_table@.contains_key(k) == o.contains_key(k) by {
                            if start <= k < vpn {
                                assert(before.contains_key(k));
                                if !o.contains_key(k) {
                                    assert(added@.contains(k));
                                } else {
                                    assert(!added@.contains(k));
                                }
                            } else {
                                assert(before.contains_key(k) == o.contains_key(k));
                                assert(!added@.contains(k));
                            }
                        }
                        assert forall|k: u64| #[trigger] page_table@.contains_key(k) implies page_table@[k] == o[k] by {
                            assert(page_table@[k] == before[k]);
                            assert(o.contains_key(k));
                            assert(before.contains_key(k));
                        }
                    }
                }
                return false;
            }
            let ghost pt0 = *page_table;
            let ghost al0 = *alloc;
            let ok = self.map_one(page_table, VirtPageNum(vpn), alloc);
            proof {
                if old(page_table).nodes_in_pool(old(alloc).allocated()) {
                    assert forall|k: u64| #[trigger] self.frames().contains_key(k) implies !page_table.is_node(self.frames()[k]) by {
                        if fr.contains_key(k) {
                            let f = fr[k];
                            assert(al0.allocated().contains(f));
                            if page_table.is_node(f) {
                                assert(pt0.is_node(f));
                            }
                        }
                    }
                }
            }
            let ghost added0 = added@;
            if ok {
                added.push(vpn);
            }
            proof {
                assert(before.contains_key(vpn) == old(page_table)@.contains_key(vpn));
                assert forall|k: u64| #[trigger] added@.contains(k) <==> start <= k < vpn + 1 && !old(page_table)@.contains_key(k) by {
                    if ok {
                        assert(added@ == added0.push(vpn));
                        if added0.contains(k) {
                            let j = choose|j: int| 0 <= j < added0.len() && added0[j] == k;
                            assert(added@[j] == k);
                        }
                        if k == vpn {
                            assert(added@[added0.len() as int] == vpn);
                        }
                        if added@.contains(k) && k != vpn {
                            let j = choose|j: int| 0 <= j < added@.len() && added@[j] == k;
                            assert(added0[j] == k);
                        }
                    }
                }
            }
            proof {
                let after = page_table@;
                let fr2 = self.frames();
                let o = old(page_table)@;
                assert forall|k: u64| #[trigger] fr2.contains_key(k) implies start <= k < vpn + 1 by {
                    if k != vpn {
                        assert(fr.contains_key(k));
                    }
                }
                assert(before.contains_key(vpn) == o.contains_key(vpn));
                assert forall|k: u64| !(start <= k < vpn + 1) implies (#[trigger] after.contains_key(k)
                    == o.contains_key(k) && (o.contains_key(k) ==> after[k] == o[k])) by {
                    assert(after.contains_key(k) == before.contains_key(k));
                }
                assert forall|k: u64| start <= k < vpn + 1 implies #[trigger] after.contains_key(k) by {
                    if k < vpn {
                        assert(before.contains_key(k));
                    }
                }
                assert forall|k: u64| start <= k < vpn + 1 && #[trigger] o.contains_key(k) implies
                    after[k] == o[k] && !fr2.contains_key(k) by {
                    if k < vpn {
                        assert(before.contains_key(k));
                        assert(!fr.contains_key(k));
                    }
                }
                assert forall|k: u64| start <= k < vpn + 1 && !#[trigger] o.contains_key(k) implies (
                    if self.kind() == MapType::Framed {
                        fr2.contains_key(k) && after[k] == mapped_entry(fr2[k], self.perm())
                    } else {
                        after[k] == mapped_entry(k, self.perm())
                    }) by {
                    if k < vpn {
                        assert(before.contains_key(k));
                        if self.kind() == MapType::Framed {
                            assert(fr.contains_key(k));
                        }
                    }
                }
            }
            vpn = vpn + 1;
        }
        true
    }

    /// Unmaps every page of the region, as [`MapArea::unmap_one`] does; the
    /// result is whether every page had been mapped. Pages already done stay
    /// unmapped when one fails.
    pub fn unmap(&mut self, page_table: &mut PageTable, alloc: &mut StackFrameAllocator) -> (r: bool)
        requires
            old(self).wf(),
            old(page_table).wf(),
            old(alloc).wf(),
        ensures
            final(self).wf(),
            final(page_table).wf(),
            final(alloc).wf(),
            final(page_table).owns_root() == old(page_table).owns_root(),
            final(self).start() == old(self).start(),
            final(self).end() == old(self).end(),
            final(self).kind() == old(self).kind(),
            final(self).perm() == old(self).perm(),
            final(self).frames() == Map::<u64, u64>::empty(),
            r == (forall|k: u64| old(self).contains_page(k as int) ==> #[trigger] old(page_table)@.contains_key(k)),
            final(page_table)@ == old(page_table)@.remove_keys(
                Set::new(|k: u64| old(self).contains_page(k as int)),
            ),
            final(alloc).free_count() >= old(alloc).free_count(),
    {
        let start = self.vpn_range.get_start().0;
        let end = self.vpn_range.get_end().0;
        let mut vpn = start;
        let mut ret = true;
        while vpn < end
            invariant
                self.wf(),
                page_table.wf(),
                alloc.wf(),
                page_table.owns_root() == old(page_table).owns_root(),
                self.start() == start,
                self.end() == end,
                start == old(self).start(),
                end == old(self).end(),
                self.kind() == old(self).kind(),
                self.perm() == old(self).perm(),
                start <= vpn,
                vpn == start || vpn <= end,
                end <= VPN_LIMIT,
                alloc.free_count() >= old(alloc).free_count(),
                forall|k: u64| #[trigger] self.frames().contains_key(k) ==> vpn <= k < end,
                ret == (forall|k: u64| start <= k < vpn ==> #[trigger] old(page_table)@.contains_key(k)),
                page_table@ == old(page_table)@.remove_keys(Set::new(|k: u64| start <= k < vpn)),
            decreases end - vpn,
        {
            let ghost before = page_table@;
            let one = self.unmap_one(page_table, VirtPageNum(vpn), alloc);
            proof {
                assert(leaf_key(vpn) == vpn);
                assert(!Set::new(|k: u64| start <= k < vpn).contains(vpn));
                assert(before.contains_key(vpn) == old(page_table)@.contains_key(vpn));
                assert(one == old(page_table)@.contains_key(vpn));
                assert(page_table@ =~= old(page_table)@.remove_keys(Set::new(|k: u64| start <= k < vpn + 1)));
            }
            ret = ret && one;
            vpn = vpn + 1;
        }
        proof {
            assert(self.frames() =~= Map::<u64, u64>::empty());
            assert(Set::new(|k: u64| start <= k < vpn) =~= Set::new(|k: u64| old(self).contains_page(k as int)));
        }
        ret
    }

    /// Contents of the frame the region owns for page `vpn`.
    pub closed spec fn page_bytes(&self, vpn: u64) -> Seq<u8> {
        self.data_frames@[vpn].bytes@
    }

    /// Copies `data` into the frames of the region, page by page from its
    /// first page; `data` may end before the region does. Bytes past the end
    /// of `data` keep their contents.
    pub fn copy_data(&mut self, data: &[u8])
        requires
            old(self).wf(),
            old(self).kind() == MapType::Framed,
            forall|j: int| 0 <= j < data@.len() ==> #[trigger] old(self).frames().contains_key((old(self).start() + j / PAGE_SIZE as int) as u64),
        ensures
            final(self).wf(),
            final(self).start() == old(self).start(),
            final(self).end() == old(self).end(),
            final(self).kind() == old(self).kind(),
            final(self).perm() == old(self).perm(),
            final(self).frames() == old(self).frames(),
            forall|j: int| 0 <= j < data@.len() ==> #[trigger] final(self).page_bytes((old(self).start() + j / PAGE_SIZE as int) as u64)[j % PAGE_SIZE as int] == data@[j],
            forall|v: u64, o: int|
                #![trigger final(self).page_bytes(v)[o]]
                old(self).frames().contains_key(v) && 0 <= o < PAGE_SIZE && !(old(self).start() <= v && (v - old(self).start()) * PAGE_SIZE + o < data@.len())
                    ==> final(self).page_bytes(v)[o] == old(self).page_bytes(v)[o],
    {
        let len = data.len();
        let start = self.vpn_range.get_start().0;
        assert(start == old(self).start());
        let mut off: usize = 0;
        let mut page: u64 = start;
        while off < len
            invariant
                self.wf(),
                self.start() == start,
                self.end() == old(self).end(),
                self.kind() == old(self).kind(),
                self.perm() == old(self).perm(),
                self.frames() == old(self).frames(),
                len == data@.len(),
                off % 4096 == 0 || off >= len,
                off <= len,
                off < len ==> page == start + off / 4096,
                start == old(self).start(),
                forall|j: int| 0 <= j < data@.len() ==> #[trigger] old(self).frames().contains_key((old(self).start() + j / PAGE_SIZE as int) as u64),
                forall|j: int| 0 <= j < off && j < len ==> #[trigger] self.page_bytes((start + j / PAGE_SIZE as int) as u64)[j % PAGE_SIZE as int] == data@[j],
                forall|v: u64, o: int|
                    #![trigger self.page_bytes(v)[o]]
                    self.frames().contains_key(v) && 0 <= o < PAGE_SIZE && !(start <= v && (v - start) * PAGE_SIZE + o < off)
                        ==> self.page_bytes(v)[o] == old(self).page_bytes(v)[o],
            decreases len - off,
        {
            assert(self.frames().contains_key((start + off as int / PAGE_SIZE as int) as u64));
            let ghost before = *self;
            let mut frame = self.data_frames.remove(&page).unwrap();
            let chunk_end: usize = if len - off < 4096 { len } else { off + 4096 };
            let mut j: usize = off;
            while j < chunk_end
                invariant
                    off <= j <= chunk_end,
                    chunk_end <= len,
                    chunk_end - off <= 4096,
                    len == data@.len(),
                    frame.wf(),
                    frame.ppn == before.data_frames@[page].ppn,
                    forall|q: int| 0 <= q < j - off ==> #[trigger] frame.bytes@[q] == data@[off + q],
                    forall|q: int| j - off <= q < PAGE_SIZE ==> #[trigger] frame.bytes@[q] == before.page_bytes(page)[q],
                decreases chunk_end - j,
            {
                frame.bytes.set(j - off, data[j]);
                j = j + 1;
            }
            self.data_frames.insert(page, frame);
            proof {
                assert(self.frames() =~= old(self).frames());
                assert forall|jj: int| 0 <= jj < chunk_end && jj < len implies #[trigger] self.page_bytes((start + jj / PAGE_SIZE as int) as u64)[jj % PAGE_SIZE as int] == data@[jj] by {
                    if jj >= off {
                        assert(jj / 4096 == off / 4096) by (nonlinear_arith)
                            requires off % 4096 == 0, off <= jj < off + 4096;
                        assert(jj % 4096 == jj - off) by (nonlinear_arith)
                            requires off % 4096 == 0, off <= jj < off + 4096;
                    } else {
                        assert(jj / 4096 < off / 4096) by (nonlinear_arith)
                            requires off % 4096 == 0, 0 <= jj < off;
                        assert(before.page_bytes((start + jj / PAGE_SIZE as int) as u64)[jj % PAGE_SIZE as int] == data@[jj]);
                    }
                }
                assert forall|v: u64, o: int|
                    #![trigger self.page_bytes(v)[o]]
                    self.frames().contains_key(v) && 0 <= o < PAGE_SIZE && !(start <= v && (v - start) * PAGE_SIZE + o < chunk_end)
                        implies self.page_bytes(v)[o] == old(self).page_bytes(v)[o] by {
                    if v == page {
                        assert((v - start) * PAGE_SIZE == off) by (nonlinear_arith)
                            requires v == start + off / 4096, off % 4096 == 0, PAGE_SIZE == 4096;
                        assert(before.page_bytes(v)[o] == old(self).page_bytes(v)[o]);
                    } else {
                        assert(before.page_bytes(v) == self.page_bytes(v));
                        if start <= v && (v - start) * PAGE_SIZE + o < off {
                        }
                    }
                }
            }
            off = chunk_end;
            if off < len {
                page = page + 1;
                assert(page == start + off / 4096) by (nonlinear_arith)
                    requires page == start + (off - 4096) / 4096 + 1, off % 4096 == 0, off >= 4096;
            }
        }
        proof {
            assert forall|v: u64, o: int|
                #![trigger self.page_bytes(v)[o]]
                old(self).frames().contains_key(v) && 0 <= o < PAGE_SIZE && !(old(self).start() <= v && (v - old(self).start()) * PAGE_SIZE + o < data@.len())
                    implies self.page_bytes(v)[o] == old(self).page_bytes(v)[o] by {
                assert(self.frames().contains_key(v));
            }
        }
    }

    /// Gives every frame of the region back to the pool, leaving the page
    /// table as it is: what dropping the region amounts to.
    pub fn release_frames(&mut self, alloc: &mut StackFrameAllocator)
        requires
            old(self).wf(),
            old(alloc).wf(),
        ensures
            final(self).wf(),
            final(alloc).wf(),
            final(alloc).free_count() >= old(alloc).free_count(),
            final(self).start() == old(self).start(),
            final(self).end() == old(self).end(),
            final(self).kind() == old(self).kind(),
            final(self).perm() == old(self).perm(),
            final(self).frames() == Map::<u64, u64>::empty(),
    {
        let start = self.vpn_range.get_start().0;
        let end = self.vpn_range.get_end().0;
        let mut vpn = start;
        while vpn < end
            invariant
                self.wf(),
                alloc.wf(),
                alloc.free_count() >= old(alloc).free_count(),
                self.start() == start,
                self.end() == end,
                self.kind() == old(self).kind(),
                self.perm() == old(self).perm(),
                start <= vpn,
                forall|k: u64| #[trigger] self.frames().contains_key(k) ==> vpn <= k,
            decreases end - vpn,
        {
            let ghost before = self.frames();
            match self.data_frames.remove(&vpn) {
                Some(frame) => alloc.dealloc_frame(frame),
                None => {},
            }
            assert(self.frames() =~= before.remove(vpn));
            vpn = vpn + 1;
        }
        proof {
            assert(self.frames() =~= Map::<u64, u64>::empty());
        }
    }

    /// Unmaps page `vpn` of the region, giving its frame back to the pool
    /// first for a framed region. Returns whether the page table had the page
    /// mapped.
    pub fn unmap_one(&mut self, page_table: &mut PageTable, vpn: VirtPageNum, alloc: &mut StackFrameAllocator) -> (r: bool)
        requires
            old(self).wf(),
            old(page_table).wf(),
            old(alloc).wf(),
        ensures
            final(self).wf(),
            final(page_table).wf(),
            final(alloc).wf(),
            final(page_table).owns_root() == old(page_table).owns_root(),
            final(self).start() == old(self).start(),
            final(self).end() == old(self).end(),
            final(self).kind() == old(self).kind(),
            final(self).perm() == old(self).perm(),
            final(self).frames() == old(self).frames().remove(vpn.0),
            r == old(page_table)@.contains_key(leaf_key(vpn.0)),
            final(page_table)@ == old(page_table)@.remove(leaf_key(vpn.0)),
            final(page_table).frame_count() == old(page_table).frame_count(),
            final(alloc).free_count() >= old(alloc).free_count(),
            !old(self).frames().contains_key(vpn.0) ==> *final(alloc) == *old(alloc),
            old(self).frames().contains_key(vpn.0) && old(alloc).allocated().contains(old(self).frames()[vpn.0]) ==> final(alloc).allocated()
                == old(alloc).allocated().remove(old(self).frames()[vpn.0]) && final(alloc).free_count() == old(alloc).free_count() + 1,
            forall|p: u64| #[trigger] final(page_table).is_node(p) == old(page_table).is_node(p),
            old(page_table).nodes_in_pool(old(alloc).allocated()) && (old(self).frames().contains_key(vpn.0)
                ==> !old(page_table).is_node(old(self).frames()[vpn.0])) ==> final(page_table).nodes_in_pool(final(alloc).allocated()),
    {
        match self.map_type {
            MapType::Framed => {
                match self.data_frames.remove(&vpn.0) {
                    Some(frame) => alloc.dealloc_frame(frame),
                    None => {},
                }
            },
            MapType::Identical => {},
        }
        proof {
            assert(self.frames() =~= old(self).frames().remove(vpn.0));
            if old(page_table).nodes_in_pool(old(alloc).allocated()) && (old(self).frames().contains_key(vpn.0)
                ==> !old(page_table).is_node(old(self).frames()[vpn.0])) {
                assert forall|q: u64| #[trigger] page_table.is_node(q) implies alloc.allocated().contains(q) by {
                    lemma_node_in_pool(*page_table, old(alloc).allocated(), q);
                }
                lemma_nodes_repool(*page_table, old(alloc).allocated(), alloc.allocated());
            }
        }
        page_table.unmap(vpn)
    }
}

/// What an address space shows of one region: its first page, the page
/// right after it, its type, its permission bits and its frames.
pub type RegionView = (u64, u64, MapType, u8, Map<u64, u64>);

/// The view of region `a`.
pub open spec fn region_view(a: MapArea) -> RegionView {
    (a.start(), a.end(), a.kind(), a.perm(), a.frames())
}

/// Whether page `p` lies in the range of some region of `rs`.
pub open spec fn in_some_region(rs: Seq<RegionView>, p: int) -> bool {
    exists|i: int| 0 <= i < rs.len() && #[trigger] rs[i].0 <= p < rs[i].1
}

/// Whether some region of `rs` owns a frame for page `p`.
pub open spec fn owned(rs: Seq<RegionView>, p: u64) -> bool {
    exists|i: int| 0 <= i < rs.len() && #[trigger] rs[i].4.contains_key(p)
}

/// Whether `mmap` may take page `p`: the page already has a frame in some
/// region, or lies in no region at all.
pub open spec fn page_mappable(rs: Seq<RegionView>, p: u64) -> bool {
    owned(rs, p) || !in_some_region(rs, p as int)
}

/// Whether some region of `rs` meets the pages `[start, end)`.
pub open spec fn intersects_any(rs: Seq<RegionView>, start: u64, end: u64) -> bool {
    exists|i: int| #![trigger rs[i]] 0 <= i < rs.len() && !(rs[i].0 >= end || rs[i].1 <= start)
}

/// No two regions of `rs` share a page.
pub open spec fn regions_disjoint(rs: Seq<RegionView>) -> bool {
    forall|i: int, j: int|
        0 <= i < rs.len() && 0 <= j < rs.len() && i != j ==> #[trigger] rs[i].1 <= #[trigger] rs[j].0
            || rs[j].1 <= rs[i].0 || rs[i].1 <= rs[i].0 || rs[j].1 <= rs[j].0
}

/// Whether page `p` of `[start, end)` lies in no region of `rs`.
pub open spec fn free_in(rs: Seq<RegionView>, start: u64, end: u64, p: u64) -> bool {
    start <= p < end && !in_some_region(rs, p as int)
}

/// `b` has the regions of `a`, with the same ranges, types and permissions,
/// each owning at least the frames it owned in `a`.
pub open spec fn same_layout(a: Seq<RegionView>, b: Seq<RegionView>) -> bool {
    &&& a.len() == b.len()
    &&& forall|i: int|
        0 <= i < a.len() ==> (#[trigger] a[i]).0 == b[i].0 && a[i].1 == b[i].1 && a[i].2 == b[i].2
            && a[i].3 == b[i].3 && (forall|k: u64| #[trigger] a[i].4.contains_key(k) ==> b[i].4.contains_key(k) && b[i].4[k] == a[i].4[k])
}

proof fn lemma_same_layout_in_region(a: Seq<RegionView>, b: Seq<RegionView>, p: int)
    requires
        same_layout(a, b),
    ensures
        in_some_region(a, p) == in_some_region(b, p),
{
    if in_some_region(a, p) {
        let i = choose|i: int| 0 <= i < a.len() && #[trigger] a[i].0 <= p < a[i].1;
        assert(b[i].0 <= p < b[i].1);
    }
    if in_some_region(b, p) {
        let i = choose|i: int| 0 <= i < b.len() && #[trigger] b[i].0 <= p < b[i].1;
        assert(a[i].0 == b[i].0);
        assert(a[i].0 <= p < a[i].1);
    }
}

proof fn lemma_same_layout_trans(a: Seq<RegionView>, b: Seq<RegionView>, c: Seq<RegionView>)
    requires
        same_layout(a, b),
        same_layout(b, c),
    ensures
        same_layout(a, c),
{
    assert forall|i: int| 0 <= i < a.len() implies (#[trigger] a[i]).0 == c[i].0 && a[i].1 == c[i].1 && a[i].2 == c[i].2
            && a[i].3 == c[i].3 && (forall|k: u64| #[trigger] a[i].4.contains_key(k) ==> c[i].4.contains_key(k) && c[i].4[k] == a[i].4[k]) by {
        assert(b[i].0 == c[i].0);
        assert forall|k: u64| #[trigger] a[i].4.contains_key(k) implies c[i].4.contains_key(k) && c[i].4[k] == a[i].4[k] by {
            assert(b[i].4.contains_key(k));
        }
    }
}

/// Whether page `p` lies in some region of `rs` that has no frame for it,
/// no region has one, and `t` does not translate it.
pub open spec fn needs_frame(rs: Seq<RegionView>, t: Map<u64, PageTableEntry>, p: u64) -> bool {
    in_some_region(rs, p as int) && !owned(rs, p) && !t.contains_key(p)
}

/// Whether region `i` of `rs` is the first whose range holds page `p`.
pub open spec fn first_containing(rs: Seq<RegionView>, p: u64, i: int) -> bool {
    &&& 0 <= i < rs.len()
    &&& rs[i].0 <= p < rs[i].1
    &&& forall|j: int| 0 <= j < i ==> !(#[trigger] rs[j].0 <= p < rs[j].1)
}

/// Whether page `p` is realized by region `i`, as it is in `rs` before:
/// in `rs2` a framed region `i` owns a frame for `p` and `t2` translates
/// `p` to it; an identical region has `t2` translate `p` to itself; both
/// with the region's permissions.
pub open spec fn realized_by(rs: Seq<RegionView>, rs2: Seq<RegionView>, t2: Map<u64, PageTableEntry>, p: u64, i: int) -> bool {
    &&& t2.contains_key(p)
    &&& rs[i].2 == MapType::Framed ==> rs2[i].4.contains_key(p) && t2[p] == mapped_entry(rs2[i].4[p], rs[i].3)
    &&& rs[i].2 == MapType::Identical ==> t2[p] == mapped_entry(p, rs[i].3)
}

/// Whether every region of `rs` is framed.
pub open spec fn all_framed(rs: Seq<RegionView>) -> bool {
    forall|i: int| 0 <= i < rs.len() ==> (#[trigger] rs[i]).2 == MapType::Framed
}

/// Whether `mmap` may take every page of `[start, end)`.
pub open spec fn judge_ok(rs: Seq<RegionView>, start: u64, end: u64) -> bool {
    forall|p: u64| start <= p < end ==> #[trigger] page_mappable(rs, p)
}

/// What `my_mmap(start, end, perm)` does to the regions `rs` and the
/// translations `t`, giving `rs2` and `t2`: the regions stay in place, each
/// keeping its frames; where some page of the range lies in no region, one
/// framed region is added, from the lowest to the highest such page, with
/// permissions `perm`. Where every page of the range may be taken, the old
/// regions and translations stay exactly as they were and the new region is
/// fully realized.
pub open spec fn mmap_post(
    rs: Seq<RegionView>,
    rs2: Seq<RegionView>,
    t: Map<u64, PageTableEntry>,
    t2: Map<u64, PageTableEntry>,
    start: u64,
    end: u64,
    perm: u8,
) -> bool {
    let found = exists|p: u64| #[trigger] free_in(rs, start, end, p);
    &&& found ==> {
        &&& rs2.len() == rs.len() + 1
        &&& same_layout(rs, rs2.take(rs.len() as int))
        &&& free_in(rs, start, end, rs2.last().0)
        &&& free_in(rs, start, end, (rs2.last().1 - 1) as u64)
        &&& (forall|q: u64| #[trigger] free_in(rs, start, end, q) ==> rs2.last().0 <= q < rs2.last().1)
        &&& rs2.last().2 == MapType::Framed
        &&& rs2.last().3 == perm
    }
    &&& !found ==> same_layout(rs, rs2)
    &&& judge_ok(rs, start, end) && found ==> rs2.take(rs.len() as int) == rs
        && realized(rs2.last().0, rs2.last().1, MapType::Framed, perm, rs2.last().4, t, t2)
    &&& judge_ok(rs, start, end) && !found ==> rs2 == rs && t2 == t
}

/// Region `r` without its frames for the pages `[start, end)`.
pub open spec fn strip(r: RegionView, start: u64, end: u64) -> RegionView {
    (r.0, r.1, r.2, r.3, r.4.remove_keys(Set::new(|k: u64| start <= k < end)))
}

/// Whether region `r` owns some frame.
pub open spec fn has_frames(r: RegionView) -> bool {
    r.4.len() > 0
}

/// Every region of `rs`, without its frames for the pages `[start, end)`.
pub open spec fn strip_all(rs: Seq<RegionView>, start: u64, end: u64) -> Seq<RegionView> {
    rs.map_values(|r: RegionView| strip(r, start, end))
}

/// Keeps the regions that own some frame.
pub open spec fn keep_pred() -> spec_fn(RegionView) -> bool {
    |r: RegionView| has_frames(r)
}

/// The pages of `[start, end)` that some region of `rs` owns a frame for.
pub open spec fn owned_in(rs: Seq<RegionView>, start: u64, end: u64) -> Set<u64> {
    Set::new(|k: u64| start <= k < end && owned(rs, k))
}

/// What `my_unmap(start, end)` does to the regions `rs` and the
/// translations `t`, giving `rs2` and `t2`: every page of the range that a
/// region owns a frame for is unmapped and its frame released, and then
/// every region left without a frame is removed.
pub open spec fn munmap_post(
    rs: Seq<RegionView>,
    rs2: Seq<RegionView>,
    t: Map<u64, PageTableEntry>,
    t2: Map<u64, PageTableEntry>,
    start: u64,
    end: u64,
) -> bool {
    &&& t2 == t.remove_keys(owned_in(rs, start, end))
    &&& rs2 == strip_all(rs, start, end).filter(keep_pred())
}

/// Whether region `i` of `rs` is the first one that meets `[start, end)`.
pub open spec fn first_intersecting_at(rs: Seq<RegionView>, start: u64, end: u64, i: int) -> bool {
    &&& 0 <= i < rs.len()
    &&& !(rs[i].0 >= end || rs[i].1 <= start)
    &&& forall|j: int| 0 <= j < i ==> #[trigger] rs[j].0 >= end || rs[j].1 <= start
}

/// Index of the first region of `rs` that meets `[start, end)`.
pub open spec fn first_intersecting(rs: Seq<RegionView>, start: u64, end: u64) -> int {
    choose|i: int| first_intersecting_at(rs, start, end, i)
}

proof fn lemma_first_intersecting_unique(rs: Seq<RegionView>, start: u64, end: u64, i: int)
    requires
        first_intersecting_at(rs, start, end, i),
    ensures
        first_intersecting(rs, start, end) == i,
{
    let k = first_intersecting(rs, start, end);
    assert(first_intersecting_at(rs, start, end, k));
    if k < i {
        assert(rs[k].0 >= end || rs[k].1 <= start);
    } else if k > i {
        assert(rs[i].0 >= end || rs[i].1 <= start);
    }
}

/// Page of the trampoline.
pub open spec fn trampoline_vpn() -> u64 {
    floor_spec(TRAMPOLINE as int) as u64
}

/// Region permissions for an ELF segment with flag word `flags`: user
/// access, plus read, write and execute as the flags say.
pub open spec fn perm_of(flags: u32) -> u8 {
    MAP_U | (if flags & PF_R != 0 { MAP_R } else { 0u8 }) | (if flags & PF_W != 0 { MAP_W } else { 0u8 })
        | (if flags & PF_X != 0 { MAP_X } else { 0u8 })
}

/// Region permissions for an ELF segment with flag word `flags`.
pub fn elf_permission(flags: u32) -> (r: MapPermission)
    ensures
        r.bits == perm_of(flags),
{
    let r: u8 = if flags & PF_R != 0 { MAP_R } else { 0u8 };
    let w: u8 = if flags & PF_W != 0 { MAP_W } else { 0u8 };
    let x: u8 = if flags & PF_X != 0 { MAP_X } else { 0u8 };
    MapPermission { bits: MAP_U | r | w | x }
}

/// Whether region `r` is the one built for the loadable segment `ph`.
pub open spec fn segment_region(r: RegionView, ph: ProgramHeaderInfo) -> bool {
    &&& r.0 == floor_spec(ph.virtual_addr as int)
    &&& r.1 == ceil_spec(ph.virtual_addr + ph.mem_size)
    &&& r.2 == MapType::Framed
    &&& r.3 == perm_of(ph.flags)
}

/// The first `len` bytes of a segment that starts at byte `v` and spans `m`
/// bytes in memory land in its pages, where `len <= m`.
proof fn lemma_data_page_in_range(v: u64, m: u64, j: int)
    requires
        0 <= j < m,
        v + m <= VA_LIMIT,
    ensures
        floor_spec(v as int) + j / (PAGE_SIZE as int) < ceil_spec(v + m),
        floor_spec(v as int) <= floor_spec(v as int) + j / (PAGE_SIZE as int),
{
    assert(v / 4096 + j / 4096 <= (v + j) / 4096) by (nonlinear_arith)
        requires 0 <= j;
    assert((v + j) / 4096 < (v + m + 4095) / 4096) by (nonlinear_arith)
        requires j < m;
}

/// First page of the loadable segment `ph`.
pub open spec fn seg_first(ph: ProgramHeaderInfo) -> int {
    floor_spec(ph.virtual_addr as int)
}

/// Page right after the loadable segment `ph`.
pub open spec fn seg_end(ph: ProgramHeaderInfo) -> int {
    ceil_spec(ph.virtual_addr + ph.mem_size)
}

/// Whether segment `ph` lies in the SV39 space, holds its file bytes, and
/// takes them from inside an image of `len` bytes.
pub open spec fn seg_fits(ph: ProgramHeaderInfo, len: int) -> bool {
    &&& ph.virtual_addr <= VA_LIMIT
    &&& ph.mem_size <= VA_LIMIT - ph.virtual_addr
    &&& ph.file_size <= ph.mem_size
    &&& ph.offset + ph.file_size <= len
}

/// Whether the pages of segments `a` and `b` are apart.
pub open spec fn segs_apart(a: ProgramHeaderInfo, b: ProgramHeaderInfo) -> bool {
    seg_end(a) <= seg_first(b) || seg_end(b) <= seg_first(a) || seg_end(a) <= seg_first(a)
        || seg_end(b) <= seg_first(b)
}

/// The highest page end of the segments `ls`, 0 for none.
pub open spec fn max_end(ls: Seq<ProgramHeaderInfo>) -> int
    decreases ls.len(),
{
    if ls.len() == 0 {
        0
    } else {
        let m = max_end(ls.drop_last());
        if seg_end(ls.last()) > m { seg_end(ls.last()) } else { m }
    }
}

/// Bottom of the user stack over the segments `ls`: one guard page above
/// the highest of them.
pub open spec fn stack_bottom(ls: Seq<ProgramHeaderInfo>) -> int {
    max_end(ls) * PAGE_SIZE + PAGE_SIZE
}

/// Top of the user stack over the segments `ls`.
pub open spec fn stack_top(ls: Seq<ProgramHeaderInfo>) -> int {
    stack_bottom(ls) + USER_STACK_SIZE
}

/// Whether the loadable segments `ls` of an image of `len` bytes make a
/// valid user address space: each fits, no two share a page, and the
/// stack above them ends at or below the trap-context page.
pub open spec fn layout_ok(ls: Seq<ProgramHeaderInfo>, len: int) -> bool {
    &&& forall|k: int| 0 <= k < ls.len() ==> seg_fits(#[trigger] ls[k], len)
    &&& forall|a: int, b: int| 0 <= a < ls.len() && 0 <= b < ls.len() && a != b ==> segs_apart(#[trigger] ls[a], #[trigger] ls[b])
    &&& stack_top(ls) <= TRAP_CONTEXT
}

/// Number of pages of the segments `ls` from the `i`-th on.
pub open spec fn span_from(ls: Seq<ProgramHeaderInfo>, i: int) -> int
    decreases ls.len() - i,
{
    if i < 0 || i >= ls.len() {
        0
    } else {
        seg_end(ls[i]) - seg_first(ls[i]) + span_from(ls, i + 1)
    }
}

/// Frames that building a user address space over the segments `ls` may
/// take at most: the root table page, two table pages for the trampoline,
/// and three frames per page of the segments, the two stack pages and the
/// trap-context page.
pub open spec fn frames_needed(ls: Seq<ProgramHeaderInfo>) -> int {
    12 + 3 * span_from(ls, 0)
}

/// Whether, for the first `m` segments of `ls`, every page of segment `k`
/// has a frame in region `k` of `rs` and translates in `t` to that frame
/// with the segment's permissions.
pub open spec fn segments_mapped(rs: Seq<RegionView>, t: Map<u64, PageTableEntry>, ls: Seq<ProgramHeaderInfo>, m: int) -> bool {
    forall|k: int, p: u64| 0 <= k < m && seg_first(ls[k]) <= p < seg_end(ls[k]) ==> {
        &&& #[trigger] rs[k].4.contains_key(p)
        &&& t.contains_key(p)
        &&& t[p] == mapped_entry(rs[k].4[p], perm_of(ls[k].flags))
    }
}

/// Whether, for the first `m` segments of `ls`, region `k` of `ms` holds
/// segment `k`'s file bytes from `data`, laid out from its first page, and
/// zeros in the rest of its pages.
pub open spec fn segments_loaded(ms: MemorySet, ls: Seq<ProgramHeaderInfo>, data: Seq<u8>, m: int) -> bool {
    &&& forall|k: int, j: int| 0 <= k < m && 0 <= j < ls[k].file_size ==> #[trigger] ms.region_bytes(
        k,
        (seg_first(ls[k]) + j / PAGE_SIZE as int) as u64,
    )[j % PAGE_SIZE as int] == data[ls[k].offset + j]
    &&& forall|k: int, p: u64, o: int|
        #![trigger ms.region_bytes(k, p)[o]]
        0 <= k < m && seg_first(ls[k]) <= p < seg_end(ls[k]) && 0 <= o < PAGE_SIZE
            && (p - seg_first(ls[k])) * PAGE_SIZE + o >= ls[k].file_size ==> ms.region_bytes(k, p)[o] == 0u8
}

/// Whether every page of segment `m` of `ls` has a frame in region `m` of
/// `rs` and translates in `t` to that frame with the segment's permissions.
pub open spec fn segment_mapped(rs: Seq<RegionView>, t: Map<u64, PageTableEntry>, ls: Seq<ProgramHeaderInfo>, m: int) -> bool {
    forall|p: u64| seg_first(ls[m]) <= p < seg_end(ls[m]) ==> {
        &&& #[trigger] rs[m].4.contains_key(p)
        &&& t.contains_key(p)
        &&& t[p] == mapped_entry(rs[m].4[p], perm_of(ls[m].flags))
    }
}

proof fn lemma_segments_mapped_kept(
    rs0: Seq<RegionView>,
    t0: Map<u64, PageTableEntry>,
    rs: Seq<RegionView>,
    t: Map<u64, PageTableEntry>,
    ls: Seq<ProgramHeaderInfo>,
    n: int,
)
    requires
        segments_mapped(rs0, t0, ls, n),
        n <= rs0.len(),
        n <= rs.len(),
        forall|j: int| 0 <= j < n ==> #[trigger] rs[j] == rs0[j],
        forall|p: u64| #[trigger] t0.contains_key(p) ==> t.contains_key(p) && t[p] == t0[p],
    ensures
        segments_mapped(rs, t, ls, n),
{
    assert forall|k: int, p: u64| 0 <= k < n && seg_first(ls[k]) <= p < seg_end(ls[k]) implies {
        &&& #[trigger] rs[k].4.contains_key(p)
        &&& t.contains_key(p)
        &&& t[p] == mapped_entry(rs[k].4[p], perm_of(ls[k].flags))
    } by {
        assert(rs[k] == rs0[k]);
        assert(rs0[k].4.contains_key(p));
        assert(t0.contains_key(p));
    }
}

proof fn lemma_segments_mapped_extend(rs: Seq<RegionView>, t: Map<u64, PageTableEntry>, ls: Seq<ProgramHeaderInfo>, m: int)
    requires
        segments_mapped(rs, t, ls, m),
        segment_mapped(rs, t, ls, m),
    ensures
        segments_mapped(rs, t, ls, m + 1),
{
    assert forall|k: int, p: u64| 0 <= k < m + 1 && seg_first(ls[k]) <= p < seg_end(ls[k]) implies {
        &&& #[trigger] rs[k].4.contains_key(p)
        &&& t.contains_key(p)
        &&& t[p] == mapped_entry(rs[k].4[p], perm_of(ls[k].flags))
    } by {
        if k == m {
            assert(seg_first(ls[m]) <= p < seg_end(ls[m]));
            assert(rs[m].4.contains_key(p));
        } else {
            assert(0 <= k < m && seg_first(ls[k]) <= p < seg_end(ls[k]));
            assert(rs[k].4.contains_key(p));
        }
    }
}

/// What a user address space built from the loadable segments `ls` of the
/// image `data`, with entry point `entry` and the trampoline at physical
/// address `strampoline`,
/// looks like: `ms` is the address space, `sp` the top of its user stack and
/// `e` its entry point.
pub open spec fn user_space_post(
    ls: Seq<ProgramHeaderInfo>,
    data: Seq<u8>,
    entry: u64,
    strampoline: u64,
    ms: MemorySet,
    sp: u64,
    e: u64,
) -> bool {
    let n = ls.len() as int;
    let rs = ms.regions();
    let t = ms.translations();
    &&& ms.wf()
    &&& e == entry
    &&& rs.len() == n + 2
    &&& forall|k: int| 0 <= k < n ==> segment_region(#[trigger] rs[k], ls[k])
    &&& segments_mapped(rs, t, ls, n)
    &&& segments_loaded(ms, ls, data, n)
    &&& rs[n].0 == max_end(ls) + 1
    &&& rs[n].1 == max_end(ls) + 3
    &&& rs[n].2 == MapType::Framed
    &&& rs[n].3 == MAP_R | MAP_W | MAP_U
    &&& sp == stack_top(ls)
    &&& rs[n + 1].0 == floor_spec(TRAP_CONTEXT as int)
    &&& rs[n + 1].1 == ceil_spec(TRAMPOLINE as int)
    &&& rs[n + 1].2 == MapType::Framed
    &&& rs[n + 1].3 == MAP_R | MAP_W
    &&& regions_disjoint(rs)
    &&& !in_some_region(rs, trampoline_vpn() as int)
    &&& t.contains_key(trampoline_vpn())
    &&& t[trampoline_vpn()] == mapped_entry(
        floor_spec(strampoline as int) as u64,
        crate::page_table::PTE_R | crate::page_table::PTE_X,
    )
}

proof fn lemma_max_end(ls: Seq<ProgramHeaderInfo>)
    ensures
        max_end(ls) >= 0,
        forall|k: int| 0 <= k < ls.len() ==> seg_end(#[trigger] ls[k]) <= max_end(ls),
    decreases ls.len(),
{
    if ls.len() > 0 {
        lemma_max_end(ls.drop_last());
        assert forall|k: int| 0 <= k < ls.len() implies seg_end(#[trigger] ls[k]) <= max_end(ls) by {
            if k < ls.len() - 1 {
                assert(ls.drop_last()[k] == ls[k]);
            }
        }
    }
}

proof fn lemma_span_from_nonneg(ls: Seq<ProgramHeaderInfo>, i: int)
    ensures
        span_from(ls, i) >= 0,
    decreases ls.len() - i,
{
    if 0 <= i < ls.len() {
        lemma_seg_order(ls[i]);
        lemma_span_from_nonneg(ls, i + 1);
    }
}

proof fn lemma_seg_order(ph: ProgramHeaderInfo)
    ensures
        seg_first(ph) <= seg_end(ph),
        ph.virtual_addr + ph.mem_size <= VA_LIMIT ==> seg_end(ph) <= VPN_LIMIT,
{
    let v = ph.virtual_addr as int;
    let m = ph.mem_size as int;
    assert(v / 4096 <= (v + m + 4095) / 4096) by (nonlinear_arith)
        requires v >= 0, m >= 0;
    assert(v + m <= 0x80_0000_0000 ==> (v + m + 4095) / 4096 <= 0x800_0000) by (nonlinear_arith)
        requires v >= 0, m >= 0;
}

/// The frames of the regions `rs` are distinct pages, each of them handed
/// out by a pool whose handed-out pages are `pool`: no frame is held twice.
pub open spec fn frames_in_pool(rs: Seq<RegionView>, pool: Set<u64>) -> bool {
    &&& forall|i: int, k: u64| 0 <= i < rs.len() && #[trigger] rs[i].4.contains_key(k) ==> pool.contains(rs[i].4[k])
    &&& forall|i: int, k: u64, j: int, l: u64|
        0 <= i < rs.len() && 0 <= j < rs.len() && #[trigger] rs[i].4.contains_key(k) && #[trigger] rs[j].4.contains_key(l)
            && (i != j || k != l) ==> rs[i].4[k] != rs[j].4[l]
}

/// Whether every frame that `ms` holds is held once and was handed out by
/// a pool whose handed-out pages are `pool`: its page-table pages are
/// distinct, its regions' frames are distinct, and no region frame is a
/// page-table page.
pub open spec fn frames_owned(ms: MemorySet, pool: Set<u64>) -> bool {
    &&& frames_in_pool(ms.regions(), pool)
    &&& ms.tables_in_pool(pool)
    &&& forall|i: int, k: u64| 0 <= i < ms.regions().len() && #[trigger] ms.regions()[i].4.contains_key(k)
        ==> !ms.is_table_page(ms.regions()[i].4[k])
}

proof fn lemma_frames_in_pool_grow(rs: Seq<RegionView>, pool: Set<u64>, pool2: Set<u64>)
    requires
        frames_in_pool(rs, pool),
        pool.subset_of(pool2),
    ensures
        frames_in_pool(rs, pool2),
{
    assert forall|i: int, k: u64| 0 <= i < rs.len() && #[trigger] rs[i].4.contains_key(k) implies pool2.contains(rs[i].4[k]) by {
        assert(pool.contains(rs[i].4[k]));
    }
}

/// Number of frames the regions `rs` hold.
pub open spec fn region_frames(rs: Seq<RegionView>) -> int
    decreases rs.len(),
{
    if rs.len() == 0 {
        0
    } else {
        region_frames(rs.drop_last()) + rs.last().4.len()
    }
}

proof fn lemma_region_frames_update(rs: Seq<RegionView>, i: int, v: RegionView)
    requires
        0 <= i < rs.len(),
    ensures
        region_frames(rs.update(i, v)) == region_frames(rs) - rs[i].4.len() + v.4.len(),
    decreases rs.len(),
{
    if i < rs.len() - 1 {
        assert(rs.update(i, v).drop_last() =~= rs.drop_last().update(i, v));
        lemma_region_frames_update(rs.drop_last(), i, v);
    } else {
        assert(rs.update(i, v).drop_last() =~= rs.drop_last());
    }
}

proof fn lemma_region_frames_push(rs: Seq<RegionView>, v: RegionView)
    ensures
        region_frames(rs.push(v)) == region_frames(rs) + v.4.len(),
{
    assert(rs.push(v).drop_last() =~= rs);
}

proof fn lemma_filter_region_frames(rs: Seq<RegionView>)
    ensures
        region_frames(rs.filter(keep_pred())) == region_frames(rs),
    decreases rs.len(),
{
    reveal(Seq::filter);
    if rs.len() > 0 {
        lemma_filter_region_frames(rs.drop_last());
        if has_frames(rs.last()) {
            lemma_region_frames_push(rs.drop_last().filter(keep_pred()), rs.last());
        } else {
            assert(rs.last().4.len() == 0);
        }
    }
}

proof fn lemma_filter_avoids(rs: Seq<RegionView>, bad: Set<u64>)
    requires
        forall|i: int, k: u64| 0 <= i < rs.len() && #[trigger] rs[i].4.contains_key(k) ==> !bad.contains(rs[i].4[k]),
    ensures
        forall|i: int, k: u64| 0 <= i < rs.filter(keep_pred()).len() && #[trigger] rs.filter(keep_pred())[i].4.contains_key(k)
            ==> !bad.contains(rs.filter(keep_pred())[i].4[k]),
{
    let f = rs.filter(keep_pred());
    assert forall|i: int, k: u64| 0 <= i < f.len() && #[trigger] f[i].4.contains_key(k) implies !bad.contains(f[i].4[k]) by {
        assert(f.contains(f[i]));
        rs.lemma_filter_contains_rev(keep_pred(), f[i]);
        let x = choose|x: int| 0 <= x < rs.len() && rs[x] == f[i];
        assert(rs[x].4.contains_key(k));
    }
}

proof fn lemma_filter_frames_in_pool(rs: Seq<RegionView>, pool: Set<u64>)
    requires
        frames_in_pool(rs, pool),
    ensures
        frames_in_pool(rs.filter(keep_pred()), pool),
    decreases rs.len(),
{
    reveal(Seq::filter);
    if rs.len() > 0 {
        let d = rs.drop_last();
        assert(frames_in_pool(d, pool)) by {
            assert forall|i: int, k: u64| 0 <= i < d.len() && #[trigger] d[i].4.contains_key(k) implies pool.contains(d[i].4[k]) by {
                assert(d[i] == rs[i]);
            }
            assert forall|i: int, k: u64, j: int, l: u64|
                0 <= i < d.len() && 0 <= j < d.len() && #[trigger] d[i].4.contains_key(k) && #[trigger] d[j].4.contains_key(l)
                    && (i != j || k != l) implies d[i].4[k] != d[j].4[l] by {
                assert(d[i] == rs[i] && d[j] == rs[j]);
            }
        }
        lemma_filter_frames_in_pool(d, pool);
        let f = d.filter(keep_pred());
        if has_frames(rs.last()) {
            let g = f.push(rs.last());
            let last = rs.len() - 1;
            assert forall|i: int, k: u64| 0 <= i < g.len() && #[trigger] g[i].4.contains_key(k) implies pool.contains(g[i].4[k]) by {
                if i < f.len() {
                    assert(g[i] == f[i]);
                } else {
                    assert(rs[last].4.contains_key(k));
                }
            }
            assert forall|i: int, k: u64, j: int, l: u64|
                0 <= i < g.len() && 0 <= j < g.len() && #[trigger] g[i].4.contains_key(k) && #[trigger] g[j].4.contains_key(l)
                    && (i != j || k != l) implies g[i].4[k] != g[j].4[l] by {
                if i < f.len() && j < f.len() {
                    assert(g[i] == f[i] && g[j] == f[j]);
                } else if i < f.len() {
                    assert(f.contains(f[i]));
                    d.lemma_filter_contains_rev(keep_pred(), f[i]);
                    let x = choose|x: int| 0 <= x < d.len() && d[x] == f[i];
                    assert(rs[x].4.contains_key(k) && rs[last].4.contains_key(l));
                } else if j < f.len() {
                    assert(f.contains(f[j]));
                    d.lemma_filter_contains_rev(keep_pred(), f[j]);
                    let x = choose|x: int| 0 <= x < d.len() && d[x] == f[j];
                    assert(rs[x].4.contains_key(l) && rs[last].4.contains_key(k));
                } else {
                    assert(rs[last].4.contains_key(k) && rs[last].4.contains_key(l));
                }
            }
        }
    }
}

/// Byte address `vpn * PAGE_SIZE` rounds back to page `vpn` either way.
proof fn lemma_page_addr(vpn: u64)
    requires
        vpn <= VPN_LIMIT,
    ensures
        floor_spec(vpn * PAGE_SIZE) == vpn,
        ceil_spec(vpn * PAGE_SIZE) == vpn,
{
    assert((vpn * 4096) / 4096 == vpn) by (nonlinear_arith);
    assert((vpn * 4096 + 4095) / 4096 == vpn) by (nonlinear_arith);
}

/// Where the linker placed the kernel's sections, as byte addresses.
#[derive(Clone, Copy, Debug, PartialEq, Eq, Structural)]
pub struct KernelLayout {
    pub stext: u64,
    pub etext: u64,
    pub srodata: u64,
    pub erodata: u64,
    pub sdata: u64,
    pub edata: u64,
    pub sbss_with_stack: u64,
    pub ebss: u64,
    pub ekernel: u64,
    pub strampoline: u64,
}

/// Number of pages that cover `[start, end)`, zero for an empty range.
pub open spec fn page_span(start: u64, end: u64) -> int {
    if ceil_spec(end as int) > floor_spec(start as int) {
        ceil_spec(end as int) - floor_spec(start as int)
    } else {
        0
    }
}

/// Frames that building the kernel address space of `l` may take at most.
pub open spec fn kernel_frames_needed(l: KernelLayout) -> int {
    3 + 3 * (page_span(l.stext, l.etext) + page_span(l.srodata, l.erodata) + page_span(l.sdata, l.edata)
        + page_span(l.sbss_with_stack, l.ebss) + page_span(l.ekernel, MEMORY_END))
}

/// Whether region `r` is the identical region over the bytes `[start, end)`
/// with permissions `perm`.
pub open spec fn section_region(r: RegionView, start: u64, end: u64, perm: u8) -> bool {
    &&& r.0 == floor_spec(start as int)
    &&& r.1 == ceil_spec(end as int)
    &&& r.2 == MapType::Identical
    &&& r.3 == perm
}

/// Whether every page that covers the bytes `[start, end)` is translated in `t`.
pub open spec fn section_translated(t: Map<u64, PageTableEntry>, start: u64, end: u64) -> bool {
    forall|p: u64| floor_spec(start as int) <= p < ceil_spec(end as int) ==> #[trigger] t.contains_key(p)
}

/// Whether every page that covers the bytes `[start, end)` translates in
/// `t` to the physical page of the same number, with `perm` plus Valid.
pub open spec fn section_identical(t: Map<u64, PageTableEntry>, start: u64, end: u64, perm: u8) -> bool {
    forall|p: u64| floor_spec(start as int) <= p < ceil_spec(end as int) ==> #[trigger] t.contains_key(p)
        && t[p] == mapped_entry(p, perm)
}

/// Whether the kernel sections of `l` are in order, each one non-empty or
/// empty but not inverted, follow one another without sharing a page, and
/// the kernel image ends within memory.
pub open spec fn kernel_ordered(l: KernelLayout) -> bool {
    &&& ceil_spec(l.etext as int) <= floor_spec(l.srodata as int)
    &&& ceil_spec(l.erodata as int) <= floor_spec(l.sdata as int)
    &&& ceil_spec(l.edata as int) <= floor_spec(l.sbss_with_stack as int)
    &&& ceil_spec(l.ebss as int) <= floor_spec(l.ekernel as int)
    &&& l.stext <= l.etext
    &&& l.srodata <= l.erodata
    &&& l.sdata <= l.edata
    &&& l.sbss_with_stack <= l.ebss
    &&& l.ekernel <= MEMORY_END
}

proof fn lemma_section_step(
    before: Map<u64, PageTableEntry>,
    after: Map<u64, PageTableEntry>,
    s: u64,
    e: u64,
    perm: u8,
    fr: Map<u64, u64>,
    bound: int,
    tv: u64,
)
    requires
        realized(s, e, MapType::Identical, perm, fr, before, after),
        forall|q: u64| #[trigger] before.contains_key(q) ==> q == tv || q < bound,
        bound <= s,
        e <= tv,
    ensures
        forall|p: u64| s <= p < e ==> #[trigger] after.contains_key(p) && after[p] == mapped_entry(p, perm),
        forall|q: u64| #[trigger] after.contains_key(q) ==> q == tv || q < (if e > bound { e as int } else { bound }),
        forall|q: u64| #[trigger] before.contains_key(q) ==> after.contains_key(q) && after[q] == before[q],
{
    assert forall|p: u64| s <= p < e implies #[trigger] after.contains_key(p) && after[p] == mapped_entry(p, perm) by {
        assert(!before.contains_key(p));
    }
    assert forall|q: u64| #[trigger] after.contains_key(q) implies q == tv || q < (if e > bound { e as int } else { bound }) by {
        if !(s <= q < e) {
            assert(before.contains_key(q));
        }
    }
    assert forall|q: u64| #[trigger] before.contains_key(q) implies after.contains_key(q) && after[q] == before[q] by {
        if !(s <= q < e) {
            assert(after.contains_key(q) == before.contains_key(q));
        }
    }
}

proof fn lemma_kernel_sections(
    l: KernelLayout,
    t0: Map<u64, PageTableEntry>,
    t1: Map<u64, PageTableEntry>,
    t2: Map<u64, PageTableEntry>,
    t3: Map<u64, PageTableEntry>,
    t4: Map<u64, PageTableEntry>,
    t5: Map<u64, PageTableEntry>,
    tv: u64,
)
    requires
        kernel_ordered(l),
        tv == trampoline_vpn(),
        forall|q: u64| #[trigger] t0.contains_key(q) ==> q == tv,
        exists|fr: Map<u64, u64>| #[trigger] realized(floor_spec(l.stext as int) as u64, ceil_spec(l.etext as int) as u64, MapType::Identical, MAP_R | MAP_X, fr, t0, t1),
        exists|fr: Map<u64, u64>| #[trigger] realized(floor_spec(l.srodata as int) as u64, ceil_spec(l.erodata as int) as u64, MapType::Identical, MAP_R, fr, t1, t2),
        exists|fr: Map<u64, u64>| #[trigger] realized(floor_spec(l.sdata as int) as u64, ceil_spec(l.edata as int) as u64, MapType::Identical, MAP_R | MAP_W, fr, t2, t3),
        exists|fr: Map<u64, u64>| #[trigger] realized(floor_spec(l.sbss_with_stack as int) as u64, ceil_spec(l.ebss as int) as u64, MapType::Identical, MAP_R | MAP_W, fr, t3, t4),
        exists|fr: Map<u64, u64>| #[trigger] realized(floor_spec(l.ekernel as int) as u64, ceil_spec(MEMORY_END as int) as u64, MapType::Identical, MAP_R | MAP_W, fr, t4, t5),
    ensures
        section_identical(t5, l.stext, l.etext, MAP_R | MAP_X),
        section_identical(t5, l.srodata, l.erodata, MAP_R),
        section_identical(t5, l.sdata, l.edata, MAP_R | MAP_W),
        section_identical(t5, l.sbss_with_stack, l.ebss, MAP_R | MAP_W),
        section_identical(t5, l.ekernel, MEMORY_END, MAP_R | MAP_W),
{
        let s1 = floor_spec(l.stext as int) as u64;
        let e1 = ceil_spec(l.etext as int) as u64;
        let s2 = floor_spec(l.srodata as int) as u64;
        let e2 = ceil_spec(l.erodata as int) as u64;
        let s3 = floor_spec(l.sdata as int) as u64;
        let e3 = ceil_spec(l.edata as int) as u64;
        let s4 = floor_spec(l.sbss_with_stack as int) as u64;
        let e4 = ceil_spec(l.ebss as int) as u64;
        let s5 = floor_spec(l.ekernel as int) as u64;
        let e5 = ceil_spec(MEMORY_END as int) as u64;
        assert(s1 <= e1 && s2 <= e2 && s3 <= e3 && s4 <= e4 && s5 <= e5) by (nonlinear_arith)
            requires
                l.stext <= l.etext, l.srodata <= l.erodata, l.sdata <= l.edata,
                l.sbss_with_stack <= l.ebss, l.ekernel <= MEMORY_END,
                s1 == l.stext / 4096, e1 == (l.etext + 4095) / 4096,
                s2 == l.srodata / 4096, e2 == (l.erodata + 4095) / 4096,
                s3 == l.sdata / 4096, e3 == (l.edata + 4095) / 4096,
                s4 == l.sbss_with_stack / 4096, e4 == (l.ebss + 4095) / 4096,
                s5 == l.ekernel / 4096, e5 == (MEMORY_END + 4095) / 4096;
        assert(e5 < tv);
        let f1 = choose|fr: Map<u64, u64>| #[trigger] realized(s1, e1, MapType::Identical, MAP_R | MAP_X, fr, t0, t1);
        let f2 = choose|fr: Map<u64, u64>| #[trigger] realized(s2, e2, MapType::Identical, MAP_R, fr, t1, t2);
        let f3 = choose|fr: Map<u64, u64>| #[trigger] realized(s3, e3, MapType::Identical, MAP_R | MAP_W, fr, t2, t3);
        let f4 = choose|fr: Map<u64, u64>| #[trigger] realized(s4, e4, MapType::Identical, MAP_R | MAP_W, fr, t3, t4);
        let f5 = choose|fr: Map<u64, u64>| #[trigger] realized(s5, e5, MapType::Identical, MAP_R | MAP_W, fr, t4, t5);
        lemma_section_step(t0, t1, s1, e1, MAP_R | MAP_X, f1, s1 as int, tv);
        let b1: int = if e1 > s1 { e1 as int } else { s1 as int };
        lemma_section_step(t1, t2, s2, e2, MAP_R, f2, b1, tv);
        let b2: int = if e2 as int > b1 { e2 as int } else { b1 };
        lemma_section_step(t2, t3, s3, e3, MAP_R | MAP_W, f3, b2, tv);
        let b3: int = if e3 as int > b2 { e3 as int } else { b2 };
        lemma_section_step(t3, t4, s4, e4, MAP_R | MAP_W, f4, b3, tv);
        let b4: int = if e4 as int > b3 { e4 as int } else { b3 };
        lemma_section_step(t4, t5, s5, e5, MAP_R | MAP_W, f5, b4, tv);
        assert forall|p: u64| s1 <= p < e1 implies #[trigger] t5.contains_key(p) && t5[p] == mapped_entry(p, MAP_R | MAP_X) by {
            assert(t1.contains_key(p));
            assert(t2.contains_key(p));
            assert(t3.contains_key(p));
            assert(t4.contains_key(p));
        }
        assert forall|p: u64| s2 <= p < e2 implies #[trigger] t5.contains_key(p) && t5[p] == mapped_entry(p, MAP_R) by {
            assert(t2.contains_key(p));
            assert(t3.contains_key(p));
            assert(t4.contains_key(p));
        }
        assert forall|p: u64| s3 <= p < e3 implies #[trigger] t5.contains_key(p) && t5[p] == mapped_entry(p, MAP_R | MAP_W) by {
            assert(t3.contains_key(p));
            assert(t4.contains_key(p));
        }
        assert forall|p: u64| s4 <= p < e4 implies #[trigger] t5.contains_key(p) && t5[p] == mapped_entry(p, MAP_R | MAP_W) by {
            assert(t4.contains_key(p));
        }
        assert(section_identical(t5, l.stext, l.etext, MAP_R | MAP_X));
        assert(section_identical(t5, l.srodata, l.erodata, MAP_R));
        assert(section_identical(t5, l.sdata, l.edata, MAP_R | MAP_W));
        assert(section_identical(t5, l.sbss_with_stack, l.ebss, MAP_R | MAP_W));
        assert(section_identical(t5, l.ekernel, MEMORY_END, MAP_R | MAP_W));
}

/// An address space: its regions, and the page table that realizes them.
/// The trampoline page is mapped in the table outside every region.
pub struct MemorySet {
    page_table: PageTable,
    areas: Vec<MapArea>,
}

impl MemorySet {
    pub closed spec fn wf(&self) -> bool {
        &&& self.page_table.wf()
        &&& self.page_table.owns_root()
        &&& forall|i: int| 0 <= i < self.areas@.len() ==> #[trigger] self.areas@[i].wf()
    }

    /// The regions, in order.
    pub closed spec fn regions(&self) -> Seq<RegionView> {
        self.areas@.map_values(|a: MapArea| region_view(a))
    }

    /// Contents of the frame region `i` owns for page `vpn`.
    pub closed spec fn region_bytes(&self, i: int, vpn: u64) -> Seq<u8> {
        self.areas@[i].page_bytes(vpn)
    }

    /// The translations of the page table, by leaf key.
    pub closed spec fn translations(&self) -> Map<u64, PageTableEntry> {
        self.page_table@
    }

    /// Whether `p` is the page number of one of the address space's
    /// page-table pages.
    pub closed spec fn is_table_page(&self, p: u64) -> bool {
        self.page_table.is_node(p)
    }

    /// Whether the page-table pages are distinct pages, each handed out by a
    /// pool whose handed-out pages are `pool`.
    pub closed spec fn tables_in_pool(&self, pool: Set<u64>) -> bool {
        self.page_table.nodes_in_pool(pool)
    }

    /// Number of frames the address space holds: its page-table pages and
    /// the frames of its regions.
    pub closed spec fn held(&self) -> int {
        self.page_table.frame_count() + region_frames(self.regions())
    }

    /// The translation-base token of the page table.
    pub closed spec fn token_spec(&self) -> u64 {
        self.page_table.token_spec()
    }

    /// An address space with no region and an empty page table.
    pub fn new_bare(alloc: &mut StackFrameAllocator) -> (r: MemorySet)
        requires
            old(alloc).wf(),
            old(alloc).free_count() >= 1,
        ensures
            r.wf(),
            r.regions() == Seq::<RegionView>::empty(),
            r.translations() == Map::<u64, PageTableEntry>::empty(),
            final(alloc).wf(),
            final(alloc).free_count() == old(alloc).free_count() - 1,
            final(alloc).free_count() + r.held() == old(alloc).free_count(),
            frames_in_pool(r.regions(), final(alloc).allocated()),
            frames_owned(r, final(alloc).allocated()),
    {
        let r = MemorySet { page_table: PageTable::new(alloc), areas: Vec::new() };
        assert(r.regions() =~= Seq::<RegionView>::empty());
        assert(region_frames(r.regions()) == 0);
        r
    }

    /// The translation-base token of the page table.
    pub fn token(&self) -> (r: u64)
        ensures
            r == self.token_spec(),
    {
        self.page_table.token()
    }

    /// The valid leaf entry for page `vpn`, or `None` where it is not mapped.
    pub fn translate(&self, vpn: VirtPageNum) -> (r: Option<PageTableEntry>)
        requires
            self.wf(),
        ensures
            r == translate_spec(self.translations(), vpn.0),
            r is Some ==> r.unwrap().valid_spec(),
    {
        self.page_table.translate(vpn)
    }

    /// The page table of the address space.
    pub fn page_table(&self) -> (r: &PageTable)
        requires
            self.wf(),
        ensures
            r@ == self.translations(),
            r.token_spec() == self.token_spec(),
            r.wf(),
    {
        &self.page_table
    }

    /// Number of regions.
    pub fn area_count(&self) -> (r: usize)
        ensures
            r == self.regions().len(),
    {
        self.areas.len()
    }

    /// Region `i`.
    pub fn area(&self, i: usize) -> (r: &MapArea)
        requires
            i < self.regions().len(),
        ensures
            region_view(*r) == self.regions()[i as int],
    {
        &self.areas[i]
    }

    /// Maps every page of `area` into the page table, copies `data` into its
    /// first pages where given, and adds it as the last region. Where the
    /// pool holds fewer than three frames per page of `area`, changes
    /// nothing and returns `false`.
    fn push(&mut self, area: MapArea, data: Option<&[u8]>, alloc: &mut StackFrameAllocator) -> (r: (bool, Ghost<Map<u64, u64>>))
        requires
            old(self).wf(),
            area.wf(),
            area.frames() == Map::<u64, u64>::empty(),
            old(alloc).wf(),
            data is Some ==> area.kind() == MapType::Framed,
            data is Some ==> forall|j: int| 0 <= j < data.unwrap()@.len() ==> #[trigger] area.contains_page(area.start() + j / PAGE_SIZE as int)
                && !old(self).translations().contains_key((area.start() + j / PAGE_SIZE as int) as u64),
        ensures
            final(self).wf(),
            final(alloc).wf(),
            old(alloc).free_count() >= 3 * (area.end() - area.start()) ==> r.0,
            area.kind() == MapType::Framed ==> r.0 == (old(alloc).free_count() >= 3 * (area.end() - area.start())),
            area.kind() == MapType::Framed && !r.0 ==> *final(self) == *old(self) && *final(alloc) == *old(alloc),
            !r.0 ==> final(self).regions() == old(self).regions() && final(self).translations() == old(self).translations(),
            frames_owned(*old(self), old(alloc).allocated()) ==> frames_owned(*final(self), final(alloc).allocated()),
            r.0 ==> final(self).regions() == old(self).regions().push(
                (area.start(), area.end(), area.kind(), area.perm(), r.1@),
            ),
            r.0 ==> realized(area.start(), area.end(), area.kind(), area.perm(), r.1@, old(self).translations(), final(self).translations()),
            area.start() <= area.end() ==> final(alloc).free_count() + 3 * (area.end() - area.start()) >= old(alloc).free_count(),
            area.end() <= area.start() ==> final(alloc).free_count() == old(alloc).free_count(),
            r.0 ==> final(alloc).free_count() + final(self).held() == old(alloc).free_count() + old(self).held(),
            r.0 ==> old(alloc).allocated().subset_of(final(alloc).allocated()),
            r.0 && frames_in_pool(old(self).regions(), old(alloc).allocated()) ==> frames_in_pool(final(self).regions(), final(alloc).allocated()),
            r.0 ==> forall|i: int, v: u64| 0 <= i < old(self).regions().len() ==> #[trigger] final(self).region_bytes(i, v) == old(self).region_bytes(i, v),
            r.0 && data is Some ==> forall|j: int| 0 <= j < data.unwrap()@.len() ==> #[trigger] final(self).region_bytes(
                old(self).regions().len() as int,
                (area.start() + j / PAGE_SIZE as int) as u64,
            )[j % PAGE_SIZE as int] == data.unwrap()@[j],
            r.0 ==> forall|v: u64, o: int|
                #![trigger final(self).region_bytes(old(self).regions().len() as int, v)[o]]
                r.1@.contains_key(v) && 0 <= o < PAGE_SIZE && !(data is Some && area.start() <= v
                    && (v - area.start()) * PAGE_SIZE + o < data.unwrap()@.len())
                    ==> final(self).region_bytes(old(self).regions().len() as int, v)[o] == 0u8,
    {
        let mut a = area;
        let ghost pt0 = self.page_table;
        if !a.map(&mut self.page_table, alloc) {
            proof {
                if frames_owned(*old(self), old(alloc).allocated()) {
                    assert(self.regions() == old(self).regions());
                    lemma_frames_in_pool_grow(self.regions(), old(alloc).allocated(), alloc.allocated());
                    assert forall|i: int, k: u64| 0 <= i < self.regions().len() && #[trigger] self.regions()[i].4.contains_key(k)
                        implies !self.is_table_page(self.regions()[i].4[k]) by {
                        let f = self.regions()[i].4[k];
                        assert(old(alloc).allocated().contains(f));
                        assert(!pt0.is_node(f));
                    }
                }
            }
            return (false, Ghost(Map::empty()));
        }
        let ghost mapped = a;
        proof {
            a.lemma_frame_count();
            area.lemma_frame_count();
        }
        match data {
            Some(d) => {
                proof {
                    assert forall|j: int| 0 <= j < d@.len() implies #[trigger] a.frames().contains_key((a.start() + j / PAGE_SIZE as int) as u64) by {
                        let k = (area.start() + j / PAGE_SIZE as int) as u64;
                        assert(area.contains_page(area.start() + j / PAGE_SIZE as int));
                        assert(!old(self).translations().contains_key(k));
                    }
                }
                a.copy_data(d);
            },
            None => {},
        }
        let ghost fr = a.frames();
        proof {
            assert forall|v: u64, o: int| #![trigger a.page_bytes(v)[o]]
                fr.contains_key(v) && 0 <= o < PAGE_SIZE && !(data is Some && a.start() <= v
                    && (v - a.start()) * PAGE_SIZE + o < data.unwrap()@.len()) implies a.page_bytes(v)[o] == 0u8 by {
                assert(mapped.frames().contains_key(v));
                assert(mapped.page_bytes(v) == Seq::new(PAGE_SIZE as nat, |i: int| 0u8));
            }
        }
        self.areas.push(a);
        proof {
            assert(self.regions() =~= old(self).regions().push(region_view(a)));
            lemma_region_frames_push(old(self).regions(), region_view(a));
            a.lemma_frame_count();
            area.lemma_frame_count();
            if frames_owned(*old(self), old(alloc).allocated()) {
                let rs0 = old(self).regions();
                let rs1 = self.regions();
                let n = rs0.len() as int;
                assert forall|i: int| 0 <= i < n implies #[trigger] rs1[i] == rs0[i] by {}
                assert(rs1[n] == region_view(a));
                assert forall|i: int, k: u64| 0 <= i < rs1.len() && #[trigger] rs1[i].4.contains_key(k)
                    implies !self.is_table_page(rs1[i].4[k]) by {
                    if i < n {
                        let f = rs0[i].4[k];
                        assert(rs0[i].4.contains_key(k));
                        assert(old(alloc).allocated().contains(f));
                        assert(!pt0.is_node(f));
                    } else {
                        assert(mapped.frames().contains_key(k));
                    }
                }
            }
            if frames_in_pool(old(self).regions(), old(alloc).allocated()) {
                let rs0 = old(self).regions();
                let rs1 = self.regions();
                let n = rs0.len() as int;
                assert forall|i: int| 0 <= i < n implies #[trigger] rs1[i] == rs0[i] by {}
                assert(rs1[n] == region_view(a));
                assert forall|i: int, k: u64| 0 <= i < rs1.len() && #[trigger] rs1[i].4.contains_key(k) implies alloc.allocated().contains(rs1[i].4[k]) by {
                    if i < n {
                        assert(rs0[i].4.contains_key(k));
                    }
                }
                assert forall|i: int, k: u64, j: int, l: u64|
                    0 <= i < rs1.len() && 0 <= j < rs1.len() && #[trigger] rs1[i].4.contains_key(k) && #[trigger] rs1[j].4.contains_key(l)
                        && (i != j || k != l) implies rs1[i].4[k] != rs1[j].4[l] by {
                    if i < n && j < n {
                        assert(rs0[i].4.contains_key(k) && rs0[j].4.contains_key(l));
                    } else if i < n {
                        assert(rs0[i].4.contains_key(k));
                        assert(old(alloc).allocated().contains(rs0[i].4[k]));
                        assert(!old(alloc).allocated().contains(fr[l]));
                    } else if j < n {
                        assert(rs0[j].4.contains_key(l));
                        assert(old(alloc).allocated().contains(rs0[j].4[l]));
                        assert(!old(alloc).allocated().contains(fr[k]));
                    } else {
                        assert(fr.contains_key(k) && fr.contains_key(l));
                    }
                }
            }
        }
        (true, Ghost(fr))
    }

    /// Adds a framed region over the pages that cover `[start_va, end_va)`
    /// and maps all of them. The range is expected to meet no region. Where
    /// the pool holds fewer than three frames per page, changes nothing and
    /// returns `false`.
    pub fn insert_framed_area(&mut self, start_va: VirtAddr, end_va: VirtAddr, permission: MapPermission, alloc: &mut StackFrameAllocator) -> (r: (bool, Ghost<Map<u64, u64>>))
        requires
            old(self).wf(),
            end_va.0 <= VA_LIMIT,
            old(alloc).wf(),
        ensures
            final(self).wf(),
            final(alloc).wf(),
            r.0 == (old(alloc).free_count() >= 3 * (ceil_spec(end_va.0 as int) - floor_spec(start_va.0 as int))),
            !r.0 ==> *final(self) == *old(self) && *final(alloc) == *old(alloc),
            r.0 ==> final(self).regions() == old(self).regions().push(
                (floor_spec(start_va.0 as int) as u64, ceil_spec(end_va.0 as int) as u64, MapType::Framed, permission.bits, r.1@),
            ),
            r.0 ==> realized(
                floor_spec(start_va.0 as int) as u64,
                ceil_spec(end_va.0 as int) as u64,
                MapType::Framed,
                permission.bits,
                r.1@,
                old(self).translations(),
                final(self).translations(),
            ),
            floor_spec(start_va.0 as int) <= ceil_spec(end_va.0 as int) ==> final(alloc).free_count() + 3 * (ceil_spec(end_va.0 as int) - floor_spec(start_va.0 as int)) >= old(alloc).free_count(),
            r.0 ==> final(alloc).free_count() + final(self).held() == old(alloc).free_count() + old(self).held(),
            r.0 ==> old(alloc).allocated().subset_of(final(alloc).allocated()),
            r.0 && frames_in_pool(old(self).regions(), old(alloc).allocated()) ==> frames_in_pool(final(self).regions(), final(alloc).allocated()),
            frames_owned(*old(self), old(alloc).allocated()) ==> frames_owned(*final(self), final(alloc).allocated()),
    {
        let area = MapArea::new(start_va, end_va, MapType::Framed, permission);
        self.push(area, None, alloc)
    }

    /// Gives page `p` a frame in the first region whose range holds it,
    /// where no region has a frame for it yet; returns whether some region
    /// holds `p`.
    fn materialize(&mut self, p: u64, alloc: &mut StackFrameAllocator) -> (inside: bool)
        requires
            old(self).wf(),
            old(alloc).wf(),
            old(alloc).free_count() >= 3,
        ensures
            final(self).wf(),
            final(alloc).wf(),
            inside == in_some_region(old(self).regions(), p as int),
            same_layout(old(self).regions(), final(self).regions()),
            page_mappable(old(self).regions(), p) ==> final(self).regions() == old(self).regions()
                && final(self).translations() == old(self).translations()
                && final(alloc).free_count() == old(alloc).free_count(),
            final(alloc).free_count() + 3 >= old(alloc).free_count(),
            final(alloc).free_count() + final(self).held() == old(alloc).free_count() + old(self).held(),
            old(alloc).allocated().subset_of(final(alloc).allocated()),
            frames_in_pool(old(self).regions(), old(alloc).allocated()) ==> frames_in_pool(final(self).regions(), final(alloc).allocated()),
            frames_owned(*old(self), old(alloc).allocated()) ==> frames_owned(*final(self), final(alloc).allocated()),
            needs_frame(old(self).regions(), old(self).translations(), p) ==> final(self).translations().contains_key(p)
                && (all_framed(old(self).regions()) ==> owned(final(self).regions(), p)),
            needs_frame(old(self).regions(), old(self).translations(), p) ==> exists|i: int|
                #[trigger] first_containing(old(self).regions(), p, i) && realized_by(old(self).regions(), final(self).regions(), final(self).translations(), p, i),
            forall|k: u64| #[trigger] old(self).translations().contains_key(k) ==> final(self).translations().contains_key(k)
                && final(self).translations()[k] == old(self).translations()[k],
            forall|k: u64| k != p ==> (#[trigger] final(self).translations().contains_key(k) == old(self).translations().contains_key(k)
                && (old(self).translations().contains_key(k) ==> final(self).translations()[k] == old(self).translations()[k])),
            forall|i: int, k: u64| 0 <= i < old(self).regions().len() && k != p ==> (#[trigger] final(self).regions()[i].4.contains_key(k)
                == old(self).regions()[i].4.contains_key(k)),
    {
        let (has_frame, inside) = self.page_state(p);
        if has_frame {
            return inside;
        }
        let mut i: usize = 0;
        while i < self.areas.len()
            invariant
                0 <= i <= self.areas@.len(),
                *self == *old(self),
                *alloc == *old(alloc),
                !owned(self.regions(), p),
                self.wf(),
                alloc.wf(),
                alloc.free_count() >= 3,
                self.regions().len() == self.areas@.len(),
                forall|j: int| 0 <= j < i ==> !(#[trigger] self.regions()[j].0 <= p < self.regions()[j].1),
            decreases self.areas@.len() - i,
        {
            assert(self.regions()[i as int] == region_view(self.areas@[i as int]));
            if self.areas[i].get_start().0 <= p && p < self.areas[i].get_end().0 {
                assert(self.regions()[i as int].0 <= p < self.regions()[i as int].1);
                if !self.areas[i].owns(VirtPageNum(p)) {
                    assert(!page_mappable(old(self).regions(), p));
                    let ghost before = self.regions();
                    let ghost pt0 = self.page_table;
                    let ghost fr_old = old(self).areas@[i as int].frames();
                    assert(old(self).areas@[i as int].wf());
                    let mut a = self.areas.remove(i);
                    let mapped = a.map_one(&mut self.page_table, VirtPageNum(p), alloc);
                    self.areas.insert(i, a);
                    proof {
                        assert(self.areas@ =~= old(self).areas@.update(i as int, a));
                        assert(self.regions() =~= before.update(i as int, region_view(a)));
                        assert(leaf_key(p) == p);
                        if needs_frame(before, old(self).translations(), p) {
                            assert(mapped);
                            assert(self.translations().contains_key(p));
                            assert(first_containing(before, p, i as int));
                            assert(realized_by(before, self.regions(), self.translations(), p, i as int));
                            if all_framed(before) {
                                assert(before[i as int].2 == MapType::Framed);
                                assert(self.regions()[i as int].4.contains_key(p));
                                assert(owned(self.regions(), p));
                            }
                        }
                        lemma_region_frames_update(before, i as int, region_view(a));
                        a.lemma_frame_count();
                        old(self).areas@[i as int].lemma_frame_count();
                        assert(before[i as int] == region_view(old(self).areas@[i as int]));
                        if frames_owned(*old(self), old(alloc).allocated()) {
                            let rs1 = self.regions();
                            let o = before[i as int].4;
                            assert(before == old(self).regions());
                            assert forall|j: int, k: u64| 0 <= j < rs1.len() && #[trigger] rs1[j].4.contains_key(k)
                                implies !self.is_table_page(rs1[j].4[k]) by {
                                if j != i || o.contains_key(k) {
                                    assert(before[j].4.contains_key(k));
                                    assert(rs1[j].4[k] == before[j].4[k]);
                                    assert(old(alloc).allocated().contains(before[j].4[k]));
                                    assert(!pt0.is_node(before[j].4[k]));
                                } else {
                                    assert(a.frames().contains_key(k) && !fr_old.contains_key(k));
                                }
                            }
                        }
                        if frames_in_pool(before, old(alloc).allocated()) {
                            let rs1 = self.regions();
                            let o = before[i as int].4;
                            let nf = rs1[i as int].4;
                            assert forall|j: int, k: u64| 0 <= j < rs1.len() && #[trigger] rs1[j].4.contains_key(k) implies alloc.allocated().contains(rs1[j].4[k]) by {
                                if j != i || o.contains_key(k) {
                                    assert(before[j].4.contains_key(k));
                                }
                            }
                            assert forall|j1: int, k1: u64, j2: int, k2: u64|
                                0 <= j1 < rs1.len() && 0 <= j2 < rs1.len() && #[trigger] rs1[j1].4.contains_key(k1) && #[trigger] rs1[j2].4.contains_key(k2)
                                    && (j1 != j2 || k1 != k2) implies rs1[j1].4[k1] != rs1[j2].4[k2] by {
                                let new1 = j1 == i && !o.contains_key(k1);
                                let new2 = j2 == i && !o.contains_key(k2);
                                if !new1 && !new2 {
                                    assert(before[j1].4.contains_key(k1) && before[j2].4.contains_key(k2));
                                } else if new1 && !new2 {
                                    assert(before[j2].4.contains_key(k2));
                                    assert(old(alloc).allocated().contains(before[j2].4[k2]));
                                } else if !new1 && new2 {
                                    assert(before[j1].4.contains_key(k1));
                                    assert(old(alloc).allocated().contains(before[j1].4[k1]));
                                } else {
                                    assert(k1 == p && k2 == p);
                                }
                            }
                        }
                        assert forall|j: int| 0 <= j < self.areas@.len() implies #[trigger] self.areas@[j].wf() by {
                            if j != i {
                                assert(self.areas@[j] == old(self).areas@[j]);
                            }
                        }
                    }
                } else {
                    assert(self.regions()[i as int].4.contains_key(p));
                    assert(owned(self.regions(), p));
                }
                return true;
            }
            i = i + 1;
        }
        false
    }

    /// Maps the pages `[start_va, end_va)` with `permission`. A page that lies
    /// in some region gets a frame there where no region owns one for it yet;
    /// the pages that lie in no region are covered by one new framed region,
    /// from the lowest to the highest of them, which is then fully mapped.
    pub fn my_mmap(&mut self, start_va: VirtPageNum, end_va: VirtPageNum, permission: MapPermission, alloc: &mut StackFrameAllocator)
        requires
            old(self).wf(),
            old(alloc).wf(),
            end_va.0 <= VPN_LIMIT,
            old(alloc).free_count() >= 6 * (end_va.0 - start_va.0),
        ensures
            final(self).wf(),
            final(alloc).wf(),
            final(alloc).free_count() + final(self).held() == old(alloc).free_count() + old(self).held(),
            frames_in_pool(old(self).regions(), old(alloc).allocated()) ==> frames_in_pool(final(self).regions(), final(alloc).allocated()),
            frames_owned(*old(self), old(alloc).allocated()) ==> frames_owned(*final(self), final(alloc).allocated()),
            forall|q: u64| start_va.0 <= q < end_va.0 && #[trigger] needs_frame(old(self).regions(), old(self).translations(), q)
                ==> final(self).translations().contains_key(q) && (all_framed(old(self).regions()) ==> owned(final(self).regions(), q)),
            (exists|q: u64| #[trigger] free_in(old(self).regions(), start_va.0, end_va.0, q)) ==> forall|q: u64|
                final(self).regions().last().0 <= q < final(self).regions().last().1 ==> #[trigger] final(self).translations().contains_key(q),
            forall|q: u64| start_va.0 <= q < end_va.0 && #[trigger] needs_frame(old(self).regions(), old(self).translations(), q)
                ==> exists|i: int| #[trigger] first_containing(old(self).regions(), q, i)
                    && realized_by(old(self).regions(), final(self).regions(), final(self).translations(), q, i),
            forall|k: u64| #[trigger] old(self).translations().contains_key(k) ==> final(self).translations().contains_key(k)
                && final(self).translations()[k] == old(self).translations()[k],
            mmap_post(
                old(self).regions(),
                final(self).regions(),
                old(self).translations(),
                final(self).translations(),
                start_va.0,
                end_va.0,
                permission.bits,
            ),
    {
        let s = start_va.0;
        let e = end_va.0;
        let ghost rs = old(self).regions();
        let mut p = s;
        let mut left = e;
        let mut right = s;
        let mut found = false;
        while p < e
            invariant
                self.wf(),
                alloc.wf(),
                s <= p,
                p == s || p <= e,
                e <= VPN_LIMIT,
                rs == old(self).regions(),
                old(alloc).free_count() >= 6 * (e - s),
                same_layout(rs, self.regions()),
                judge_ok(rs, s, e) ==> self.regions() == rs && self.translations() == old(self).translations()
                    && alloc.free_count() == old(alloc).free_count(),
                alloc.free_count() + 3 * (p - s) >= old(alloc).free_count(),
                alloc.free_count() + self.held() == old(alloc).free_count() + old(self).held(),
                frames_in_pool(rs, old(alloc).allocated()) ==> frames_in_pool(self.regions(), alloc.allocated()),
                frames_owned(*old(self), old(alloc).allocated()) ==> frames_owned(*self, alloc.allocated()),
                forall|q: u64| s <= q < p && #[trigger] needs_frame(rs, old(self).translations(), q)
                    ==> self.translations().contains_key(q) && (all_framed(rs) ==> owned(self.regions(), q)),
                forall|k: u64| k >= p ==> #[trigger] self.translations().contains_key(k) == old(self).translations().contains_key(k),
                forall|q: u64| s <= q < p && #[trigger] needs_frame(rs, old(self).translations(), q)
                    ==> exists|i: int| #[trigger] first_containing(rs, q, i) && realized_by(rs, self.regions(), self.translations(), q, i),
                forall|k: u64| #[trigger] old(self).translations().contains_key(k) ==> self.translations().contains_key(k)
                    && self.translations()[k] == old(self).translations()[k],
                forall|i: int, k: u64| 0 <= i < rs.len() && k >= p ==> #[trigger] self.regions()[i].4.contains_key(k) == rs[i].4.contains_key(k),
                found == exists|q: u64| #[trigger] free_in(rs, s, p, q),
                found ==> free_in(rs, s, p, left) && free_in(rs, s, p, right),
                !found ==> left == e && right == s,
                forall|q: u64| #[trigger] free_in(rs, s, p, q) ==> left <= q <= right,
            decreases e - p,
        {
            let ghost before = self.regions();
            let ghost before_t = self.translations();
            let ghost was_found = found;
            let inside = self.materialize(p, alloc);
            proof {
                let after = self.regions();
                lemma_same_layout_in_region(rs, before, p as int);
                lemma_same_layout_trans(rs, before, self.regions());
                assert(owned(before, p) == owned(rs, p)) by {
                    if owned(before, p) {
                        let i = choose|i: int| 0 <= i < before.len() && #[trigger] before[i].4.contains_key(p);
                        assert(rs[i].4.contains_key(p));
                    }
                    if owned(rs, p) {
                        let i = choose|i: int| 0 <= i < rs.len() && #[trigger] rs[i].4.contains_key(p);
                        assert(before[i].4.contains_key(p));
                    }
                }
                assert(all_framed(before) == all_framed(rs)) by {
                    if all_framed(rs) {
                        assert forall|i: int| 0 <= i < before.len() implies (#[trigger] before[i]).2 == MapType::Framed by {
                            assert(rs[i].2 == MapType::Framed);
                        }
                    }
                    if all_framed(before) {
                        assert forall|i: int| 0 <= i < rs.len() implies (#[trigger] rs[i]).2 == MapType::Framed by {
                            assert(before[i].2 == MapType::Framed);
                        }
                    }
                }
                assert forall|q: u64| s <= q < p + 1 && #[trigger] needs_frame(rs, old(self).translations(), q) implies
                    self.translations().contains_key(q) && (all_framed(rs) ==> owned(after, q)) by {
                    if q < p {
                        if all_framed(rs) {
                            let i = choose|i: int| 0 <= i < before.len() && #[trigger] before[i].4.contains_key(q);
                            assert(after[i].4.contains_key(q));
                        }
                    }
                }
                assert forall|i: int, k: u64| 0 <= i < rs.len() && k >= p + 1 implies #[trigger] after[i].4.contains_key(k) == rs[i].4.contains_key(k) by {
                    assert(before[i].4.contains_key(k) == rs[i].4.contains_key(k));
                }
                let tb = before_t;
                let ta = self.translations();
                assert(needs_frame(before, tb, p) == needs_frame(rs, old(self).translations(), p));
                assert forall|q: u64| s <= q < p + 1 && #[trigger] needs_frame(rs, old(self).translations(), q) implies
                    exists|i: int| #[trigger] first_containing(rs, q, i) && realized_by(rs, after, ta, q, i) by {
                    if q < p {
                        let i = choose|i: int| #[trigger] first_containing(rs, q, i) && realized_by(rs, before, tb, q, i);
                        assert(tb.contains_key(q));
                        assert(ta.contains_key(q) && ta[q] == tb[q]);
                        if rs[i].2 == MapType::Framed {
                            assert(before[i].4.contains_key(q));
                            assert(after[i].4.contains_key(q) && after[i].4[q] == before[i].4[q]);
                        }
                        assert(realized_by(rs, after, ta, q, i));
                    } else {
                        let i = choose|i: int| #[trigger] first_containing(before, p, i) && realized_by(before, after, ta, p, i);
                        assert(first_containing(rs, p, i)) by {
                            assert forall|j: int| 0 <= j < i implies !(#[trigger] rs[j].0 <= p < rs[j].1) by {
                                assert(!(before[j].0 <= p < before[j].1));
                            }
                        }
                        assert(realized_by(rs, after, ta, p, i));
                    }
                }
                if judge_ok(rs, s, e) {
                    assert(page_mappable(rs, p));
                }
            }
            if !inside {
                found = true;
                if p < left {
                    left = p;
                }
                if p > right {
                    right = p;
                }
                assert(free_in(rs, s, (p + 1) as u64, p));
            }
            proof {
                assert forall|q: u64| #[trigger] free_in(rs, s, (p + 1) as u64, q) implies left <= q <= right by {
                    if q < p {
                        assert(free_in(rs, s, p, q));
                    }
                }
                if !was_found && found {
                    assert(left == p);
                    assert(right == p);
                }
                if was_found {
                    if free_in(rs, s, p, left) {
                        assert(free_in(rs, s, (p + 1) as u64, left));
                    }
                    if free_in(rs, s, p, right) {
                        assert(free_in(rs, s, (p + 1) as u64, right));
                    }
                }
                if exists|q: u64| #[trigger] free_in(rs, s, (p + 1) as u64, q) {
                    let q = choose|q: u64| #[trigger] free_in(rs, s, (p + 1) as u64, q);
                    if q < p {
                        assert(free_in(rs, s, p, q));
                    }
                }
                if exists|q: u64| #[trigger] free_in(rs, s, p, q) {
                    let q = choose|q: u64| #[trigger] free_in(rs, s, p, q);
                    assert(free_in(rs, s, (p + 1) as u64, q));
                }
            }
            p = p + 1;
        }
        proof {
            assert(p == e || e <= s);
            assert forall|q: u64| #[trigger] free_in(rs, s, e, q) implies free_in(rs, s, p, q) by {}
        }
        if found {
            proof {
                lemma_page_addr(left);
                lemma_page_addr((right + 1) as u64);
            }
            let ghost mid = self.regions();
            let ghost mid_t = self.translations();
            self.insert_framed_area(
                VirtAddr::from_vpn(VirtPageNum(left)),
                VirtAddr::from_vpn(VirtPageNum(right + 1)),
                permission,
                alloc,
            );
            proof {
                assert(self.regions().take(rs.len() as int) =~= mid);
                let t2 = self.translations();
                let r2 = self.regions();
                assert forall|q: u64| s <= q < e && #[trigger] needs_frame(rs, old(self).translations(), q) implies
                    exists|i: int| #[trigger] first_containing(rs, q, i) && realized_by(rs, r2, t2, q, i) by {
                    let i = choose|i: int| #[trigger] first_containing(rs, q, i) && realized_by(rs, mid, mid_t, q, i);
                    assert(mid_t.contains_key(q));
                    assert(t2.contains_key(q) && t2[q] == mid_t[q]);
                    assert(r2[i] == r2.take(rs.len() as int)[i]);
                    assert(realized_by(rs, r2, t2, q, i));
                }
                assert forall|k: u64| #[trigger] old(self).translations().contains_key(k) implies t2.contains_key(k) && t2[k] == old(self).translations()[k] by {
                    assert(mid_t.contains_key(k));
                }
                assert forall|q: u64| s <= q < e && #[trigger] needs_frame(rs, old(self).translations(), q) implies
                    t2.contains_key(q) && (all_framed(rs) ==> owned(r2, q)) by {
                    assert(mid_t.contains_key(q));
                    if all_framed(rs) {
                        let i = choose|i: int| 0 <= i < mid.len() && #[trigger] mid[i].4.contains_key(q);
                        assert(r2[i] == r2.take(rs.len() as int)[i]);
                        assert(r2[i].4.contains_key(q));
                    }
                }
            }
        } else {
            proof {
                assert(!exists|q: u64| #[trigger] free_in(rs, s, e, q));
            }
        }
    }

    /// Unmaps every page of `[start_va, end_va)` that some region owns a frame
    /// for, releasing the frame, then removes every region left without a
    /// frame.
    pub fn my_unmap(&mut self, start_va: VirtPageNum, end_va: VirtPageNum, alloc: &mut StackFrameAllocator)
        requires
            old(self).wf(),
            old(alloc).wf(),
        ensures
            final(self).wf(),
            final(alloc).wf(),
            final(alloc).free_count() >= old(alloc).free_count(),
            frames_in_pool(old(self).regions(), old(alloc).allocated()) ==> frames_in_pool(final(self).regions(), final(alloc).allocated())
                && final(alloc).free_count() + final(self).held() == old(alloc).free_count() + old(self).held(),
            frames_owned(*old(self), old(alloc).allocated()) ==> frames_owned(*final(self), final(alloc).allocated()),
            munmap_post(
                old(self).regions(),
                final(self).regions(),
                old(self).translations(),
                final(self).translations(),
                start_va.0,
                end_va.0,
            ),
    {
        let s = start_va.0;
        let e = end_va.0;
        let ghost rs = old(self).regions();
        let mut p = s;
        while p < e
            invariant
                self.wf(),
                alloc.wf(),
                alloc.free_count() >= old(alloc).free_count(),
                s <= p,
                p == s || p <= e,
                rs == old(self).regions(),
                self.regions().len() == rs.len(),
                forall|i: int| 0 <= i < rs.len() ==> #[trigger] self.regions()[i] == strip(rs[i], s, p),
                self.translations() == old(self).translations().remove_keys(owned_in(rs, s, p)),
                self.page_table.frame_count() == old(self).page_table.frame_count(),
                frames_in_pool(rs, old(alloc).allocated()) ==> frames_in_pool(self.regions(), alloc.allocated())
                    && alloc.free_count() + region_frames(self.regions()) == old(alloc).free_count() + region_frames(rs),
                forall|q: u64| #[trigger] self.is_table_page(q) == old(self).is_table_page(q),
                frames_owned(*old(self), old(alloc).allocated()) ==> frames_owned(*self, alloc.allocated()),
            decreases e - p,
        {
            let mut i: usize = 0;
            let ghost t0 = self.translations();
            while i < self.areas.len()
                invariant
                    self.wf(),
                    alloc.wf(),
                    alloc.free_count() >= old(alloc).free_count(),
                    s <= p < e,
                    0 <= i <= self.areas@.len(),
                    rs == old(self).regions(),
                    self.regions().len() == rs.len(),
                    self.areas@.len() == rs.len(),
                    forall|j: int| 0 <= j < i ==> #[trigger] self.regions()[j] == strip(rs[j], s, (p + 1) as u64),
                    forall|j: int| i <= j < rs.len() ==> #[trigger] self.regions()[j] == strip(rs[j], s, p),
                    t0 == old(self).translations().remove_keys(owned_in(rs, s, p)),
                    (exists|j: int| 0 <= j < i && #[trigger] rs[j].4.contains_key(p)) ==> self.translations() == t0.remove(p),
                    !(exists|j: int| 0 <= j < i && #[trigger] rs[j].4.contains_key(p)) ==> self.translations() == t0,
                    self.page_table.frame_count() == old(self).page_table.frame_count(),
                    frames_in_pool(rs, old(alloc).allocated()) ==> frames_in_pool(self.regions(), alloc.allocated())
                        && alloc.free_count() + region_frames(self.regions()) == old(alloc).free_count() + region_frames(rs),
                        forall|q: u64| #[trigger] self.is_table_page(q) == old(self).is_table_page(q),
                    frames_owned(*old(self), old(alloc).allocated()) ==> frames_owned(*self, alloc.allocated()),
                decreases self.areas@.len() - i,
            {
                let ghost before = self.regions();
                assert(self.regions()[i as int] == region_view(self.areas@[i as int]));
                let ghost had = rs[i as int].4.contains_key(p);
                assert(self.regions()[i as int] == strip(rs[i as int], s, p));
                assert(!Set::new(|k: u64| s <= k < p).contains(p));
                assert(self.regions()[i as int].4.contains_key(p) == had);
                if self.areas[i].owns(VirtPageNum(p)) {
                    assert(self.areas@[i as int].wf());
                    let ghost old_areas = self.areas@;
                    let ghost ms0 = *self;
                    proof {
                        if frames_owned(*old(self), old(alloc).allocated()) {
                            assert(before[i as int].4.contains_key(p));
                            assert(!self.is_table_page(before[i as int].4[p]));
                        }
                    }
                    let mut a = self.areas.remove(i);
                    a.unmap_one(&mut self.page_table, VirtPageNum(p), alloc);
                    self.areas.insert(i, a);
                    proof {
                        assert(self.areas@ =~= old_areas.update(i as int, a));
                        assert(self.regions() =~= before.update(i as int, region_view(a)));
                        assert(leaf_key(p) == p);
                        lemma_region_frames_update(before, i as int, region_view(a));
                        assert forall|q: u64| #[trigger] self.is_table_page(q) == old(self).is_table_page(q) by {
                            assert(self.page_table.is_node(q) == ms0.page_table.is_node(q));
                            assert(ms0.is_table_page(q) == old(self).is_table_page(q));
                        }
                        if frames_owned(*old(self), old(alloc).allocated()) {
                            let rs1 = self.regions();
                            assert(region_view(a).4 == before[i as int].4.remove(p));
                            assert forall|j: int, k: u64| 0 <= j < rs1.len() && #[trigger] rs1[j].4.contains_key(k)
                                implies !self.is_table_page(rs1[j].4[k]) by {
                                assert(before[j].4.contains_key(k));
                                assert(rs1[j].4[k] == before[j].4[k]);
                                assert(!ms0.is_table_page(before[j].4[k]));
                            }
                        }
                        if frames_in_pool(rs, old(alloc).allocated()) {
                            let ppn = before[i as int].4[p];
                            assert(before[i as int].4.contains_key(p));
                            assert(region_view(a).4 == before[i as int].4.remove(p));
                            old_areas[i as int].lemma_frame_count();
                            assert(old_areas[i as int].wf());
                            assert(before[i as int] == region_view(old_areas[i as int]));
                            assert(before[i as int].4.dom().finite());
                            assert(region_view(a).4.dom() =~= before[i as int].4.dom().remove(p));
                            assert(region_view(a).4.len() == before[i as int].4.len() - 1);
                            let rs1 = self.regions();
                            assert forall|j: int, k: u64| 0 <= j < rs1.len() && #[trigger] rs1[j].4.contains_key(k) implies alloc.allocated().contains(rs1[j].4[k]) by {
                                assert(before[j].4.contains_key(k));
                                assert(j != i || k != p);
                            }
                            assert forall|j1: int, k1: u64, j2: int, k2: u64|
                                0 <= j1 < rs1.len() && 0 <= j2 < rs1.len() && #[trigger] rs1[j1].4.contains_key(k1) && #[trigger] rs1[j2].4.contains_key(k2)
                                    && (j1 != j2 || k1 != k2) implies rs1[j1].4[k1] != rs1[j2].4[k2] by {
                                assert(before[j1].4.contains_key(k1) && before[j2].4.contains_key(k2));
                            }
                        }
                        assert(region_view(a) == strip(rs[i as int], s, (p + 1) as u64)) by {
                            assert(region_view(a).4 =~= strip(rs[i as int], s, (p + 1) as u64).4);
                        }
                        assert forall|j: int| 0 <= j < self.areas@.len() implies #[trigger] self.areas@[j].wf() by {
                            if j != i {
                                assert(self.areas@[j] == old_areas[j]);
                            }
                        }
                        assert(self.translations() =~= t0.remove(p));
                    }
                } else {
                    proof {
                        assert(strip(rs[i as int], s, (p + 1) as u64) == strip(rs[i as int], s, p)) by {
                            assert(strip(rs[i as int], s, (p + 1) as u64).4 =~= strip(rs[i as int], s, p).4);
                        }
                    }
                }
                proof {
                    if had {
                        assert(rs[i as int].4.contains_key(p));
                    }
                }
                i = i + 1;
            }
            proof {
                assert(self.translations() =~= old(self).translations().remove_keys(owned_in(rs, s, (p + 1) as u64))) by {
                    if owned(rs, p) {
                        let j = choose|j: int| 0 <= j < rs.len() && #[trigger] rs[j].4.contains_key(p);
                        assert(owned_in(rs, s, (p + 1) as u64) =~= owned_in(rs, s, p).insert(p));
                    } else {
                        assert(owned_in(rs, s, (p + 1) as u64) =~= owned_in(rs, s, p));
                    }
                }
            }
            p = p + 1;
        }
        proof {
            assert(owned_in(rs, s, p) =~= owned_in(rs, s, e));
            assert(self.regions() =~= strip_all(rs, s, e)) by {
                assert forall|i: int| 0 <= i < rs.len() implies #[trigger] self.regions()[i] == strip_all(rs, s, e)[i] by {
                    assert(strip(rs[i], s, p).4 =~= strip(rs[i], s, e).4);
                }
            }
        }
        let ghost ms_before = *self;
        let mut rest: Vec<MapArea> = Vec::new();
        std::mem::swap(&mut self.areas, &mut rest);
        assert forall|q: u64| #[trigger] self.is_table_page(q) == old(self).is_table_page(q) by {
            assert(self.page_table == ms_before.page_table);
            assert(self.is_table_page(q) == ms_before.is_table_page(q));
            assert(ms_before.is_table_page(q) == old(self).is_table_page(q));
        }
        let ghost rs1 = rest@.map_values(|a: MapArea| region_view(a));
        assert(rs1 == strip_all(rs, s, e));
        let mut j: usize = 0;
        let ghost n = rest@.len();
        assert(n == rest.len());
        while rest.len() > 0
            invariant
                self.page_table.wf(),
                self.page_table.owns_root(),
                self.translations() == old(self).translations().remove_keys(owned_in(rs, s, e)),
                forall|i: int| 0 <= i < self.areas@.len() ==> #[trigger] self.areas@[i].wf(),
                forall|i: int| 0 <= i < rest@.len() ==> #[trigger] rest@[i].wf(),
                j + rest@.len() == n,
                n <= usize::MAX,
                rs1.len() == n,
                forall|i: int| 0 <= i < rest@.len() ==> region_view(#[trigger] rest@[i]) == rs1[j + i],
                self.regions() == rs1.take(j as int).filter(keep_pred()),
                self.page_table.frame_count() == old(self).page_table.frame_count(),
                rs1 == strip_all(rs, s, e),
                self.page_table == ms_before.page_table,
                forall|q: u64| #[trigger] ms_before.is_table_page(q) == old(self).is_table_page(q),
                forall|q: u64| #[trigger] self.is_table_page(q) == old(self).is_table_page(q),
                frames_owned(*old(self), old(alloc).allocated()) ==> frames_in_pool(rs1, alloc.allocated())
                    && self.tables_in_pool(alloc.allocated())
                    && forall|i: int, k: u64| 0 <= i < rs1.len() && #[trigger] rs1[i].4.contains_key(k) ==> !self.is_table_page(rs1[i].4[k]),
                frames_in_pool(rs, old(alloc).allocated()) ==> frames_in_pool(rs1, alloc.allocated())
                    && alloc.free_count() + region_frames(rs1) == old(alloc).free_count() + region_frames(rs),
            decreases rest@.len(),
        {
            let ghost rest0 = rest@;
            let ghost kept = self.regions();
            assert(region_view(rest0[0]) == rs1[j as int]);
            assert(rest0[0].wf());
            let a = rest.remove(0);
            proof {
                reveal(Seq::filter);
                assert(rs1.take(j + 1).drop_last() =~= rs1.take(j as int));
                assert(rs1.take(j + 1).last() == rs1[j as int]);
                assert forall|i: int| 0 <= i < rest@.len() implies region_view(#[trigger] rest@[i]) == rs1[j + 1 + i] by {
                    assert(rest@[i] == rest0[i + 1]);
                }
                assert forall|i: int| 0 <= i < rest@.len() implies #[trigger] rest@[i].wf() by {
                    assert(rest@[i] == rest0[i + 1]);
                }
            }
            if a.frames_len() > 0 {
                self.areas.push(a);
                proof {
                    assert(self.regions() =~= kept.push(region_view(a)));
                }
            }
            assert forall|q: u64| #[trigger] self.is_table_page(q) == old(self).is_table_page(q) by {
                assert(self.page_table == ms_before.page_table);
                assert(self.is_table_page(q) == ms_before.is_table_page(q));
                assert(ms_before.is_table_page(q) == old(self).is_table_page(q));
            }
            j = j + 1;
        }
        proof {
            assert(rs1.take(j as int) =~= rs1);
            if frames_in_pool(rs, old(alloc).allocated()) {
                lemma_filter_region_frames(rs1);
                lemma_filter_frames_in_pool(rs1, alloc.allocated());
            }
            if frames_owned(*old(self), old(alloc).allocated()) {
                let bad = Set::new(|q: u64| self.is_table_page(q));
                lemma_filter_avoids(rs1, bad);
                let rs2 = self.regions();
                assert forall|i: int, k: u64| 0 <= i < rs2.len() && #[trigger] rs2[i].4.contains_key(k)
                    implies !self.is_table_page(rs2[i].4[k]) by {
                    assert(!bad.contains(rs2[i].4[k]));
                }
            }
        }
    }

    /// Unmaps every page that covers `[start, end)` through the first region
    /// that meets those pages, then removes that region, releasing its
    /// frames. The result is whether every one of those pages had been
    /// mapped; pages already done stay unmapped when one fails.
    pub fn cancel_framed_area(&mut self, start: VirtAddr, end: VirtAddr, alloc: &mut StackFrameAllocator) -> (r: bool)
        requires
            old(self).wf(),
            old(alloc).wf(),
            end.0 <= VA_LIMIT,
            intersects_any(old(self).regions(), floor_spec(start.0 as int) as u64, ceil_spec(end.0 as int) as u64),
        ensures
            final(self).wf(),
            final(alloc).wf(),
            final(alloc).free_count() >= old(alloc).free_count(),
            ({
                let s = floor_spec(start.0 as int);
                let e = ceil_spec(end.0 as int);
                let i = first_intersecting(old(self).regions(), s as u64, e as u64);
                &&& final(self).regions() == old(self).regions().remove(i)
                &&& final(self).translations() == old(self).translations().remove_keys(
                    Set::new(|k: u64| s <= k < e),
                )
                &&& r == (forall|k: u64| s <= k < e ==> #[trigger] old(self).translations().contains_key(k))
            }),
    {
        let s = start.floor().0;
        let e = end.ceil().0;
        let ghost rs = old(self).regions();
        let mut i: usize = 0;
        while i < self.areas.len() && (self.areas[i].get_start().0 >= e || self.areas[i].get_end().0 <= s)
            invariant
                0 <= i <= self.areas@.len(),
                *self == *old(self),
                rs == self.regions(),
                self.regions().len() == self.areas@.len(),
                intersects_any(rs, s, e),
                forall|j: int| 0 <= j < i ==> #[trigger] rs[j].0 >= e || rs[j].1 <= s,
            decreases self.areas@.len() - i,
        {
            assert(rs[i as int] == region_view(self.areas@[i as int]));
            i = i + 1;
        }
        assert(i < self.areas@.len()) by {
            if i == self.areas@.len() {
                let j = choose|j: int| #![trigger rs[j]] 0 <= j < rs.len() && !(rs[j].0 >= e || rs[j].1 <= s);
                assert(rs[j].0 >= e || rs[j].1 <= s);
            }
        }
        let flag = i;
        assert(rs[flag as int] == region_view(self.areas@[flag as int]));
        assert(flag == first_intersecting(rs, s, e)) by {
            assert(first_intersecting_at(rs, s, e, flag as int));
            lemma_first_intersecting_unique(rs, s, e, flag as int);
        }
        assert(self.areas@[flag as int].wf());
        let mut area = self.areas.remove(flag);
        let ghost rest = self.areas@;
        let mut ret = true;
        let mut vpn = s;
        while vpn < e
            invariant
                area.wf(),
                self.page_table.wf(),
                self.page_table.owns_root(),
                alloc.wf(),
                alloc.free_count() >= old(alloc).free_count(),
                self.areas@ == rest,
                forall|j: int| 0 <= j < rest.len() ==> #[trigger] rest[j].wf(),
                s <= vpn,
                vpn == s || vpn <= e,
                e <= VPN_LIMIT,
                ret == (forall|k: u64| s <= k < vpn ==> #[trigger] old(self).translations().contains_key(k)),
                self.translations() == old(self).translations().remove_keys(Set::new(|k: u64| s <= k < vpn)),
            decreases e - vpn,
        {
            let ghost before = self.translations();
            let one = area.unmap_one(&mut self.page_table, VirtPageNum(vpn), alloc);
            proof {
                assert(leaf_key(vpn) == vpn);
                assert(!Set::new(|k: u64| s <= k < vpn).contains(vpn));
                assert(before.contains_key(vpn) == old(self).translations().contains_key(vpn));
                assert(self.translations() =~= old(self).translations().remove_keys(Set::new(|k: u64| s <= k < vpn + 1)));
            }
            ret = ret && one;
            vpn = vpn + 1;
        }
        area.release_frames(alloc);
        proof {
            assert(Set::new(|k: u64| s <= k < vpn) =~= Set::new(|k: u64| s <= k < e));
            assert(self.regions() =~= rs.remove(flag as int));
        }
        ret
    }

    /// Maps the trampoline page to the physical page at `strampoline`, with
    /// read and execute permission, outside every region. Fails, changing
    /// nothing, where the page is already mapped or the pool is short of
    /// frames.
    fn map_trampoline(&mut self, strampoline: u64, alloc: &mut StackFrameAllocator) -> (r: bool)
        requires
            old(self).wf(),
            old(alloc).wf(),
            strampoline < 0x100_0000_0000_0000,
        ensures
            final(self).wf(),
            final(alloc).wf(),
            final(self).regions() == old(self).regions(),
            r ==> final(self).translations() == old(self).translations().insert(
                trampoline_vpn(),
                mapped_entry(floor_spec(strampoline as int) as u64, crate::page_table::PTE_R | crate::page_table::PTE_X),
            ),
            !r ==> final(self).translations() == old(self).translations(),
            old(alloc).free_count() >= 2 && !old(self).translations().contains_key(trampoline_vpn()) ==> r,
            final(alloc).free_count() + 2 >= old(alloc).free_count(),
    {
        if alloc.free_frames() < 2 {
            return false;
        }
        let flags = PTEFlags::from_bits(crate::page_table::PTE_R | crate::page_table::PTE_X);
        let ok = self.page_table.map(VirtAddr(TRAMPOLINE).floor(), PhysAddr(strampoline).floor(), flags, alloc);
        ok
    }

    /// Builds a user address space from the program headers `phs` of the ELF
    /// image `data`, whose entry point is `entry`: the trampoline, mapped to
    /// the physical page at `strampoline`; one framed region per loadable
    /// segment, with user access and the segment's read, write and execute
    /// flags, holding the segment's file bytes; above the highest segment a
    /// guard page, then the user stack; and the trap-context page right below
    /// the trampoline. Returns the address space, the top of the user stack
    /// and the entry point. Rejects with `Malformed`, before taking any
    /// frame, segments that do not make a valid layout, and with
    /// `OutOfFrames` a pool too small for the layout.
    pub fn from_elf_segments(
        entry: u64,
        phs: &Vec<ProgramHeaderInfo>,
        data: &[u8],
        strampoline: u64,
        alloc: &mut StackFrameAllocator,
    ) -> (r: Result<(MemorySet, u64, u64), ElfError>)
        requires
            old(alloc).wf(),
            strampoline < 0x100_0000_0000_0000,
        ensures
            final(alloc).wf(),
            (r == Err::<(MemorySet, u64, u64), ElfError>(ElfError::Malformed)) == !layout_ok(load_segments(phs@), data@.len() as int),
            (r == Err::<(MemorySet, u64, u64), ElfError>(ElfError::OutOfFrames)) == (layout_ok(load_segments(phs@), data@.len() as int)
                && old(alloc).free_count() < frames_needed(load_segments(phs@))),
            r != Err::<(MemorySet, u64, u64), ElfError>(ElfError::BadMagic),
            r is Err ==> *final(alloc) == *old(alloc),
            r is Ok ==> user_space_post(load_segments(phs@), data@, entry, strampoline, r.unwrap().0, r.unwrap().1, r.unwrap().2),
    {
        // the loadable segments
        let mut loads: Vec<ProgramHeaderInfo> = Vec::new();
        let mut i: usize = 0;
        while i < phs.len()
            invariant
                i <= phs@.len(),
                loads@ == load_segments(phs@.take(i as int)),
            decreases phs@.len() - i,
        {
            proof {
                reveal(Seq::filter);
                assert(phs@.take(i + 1).drop_last() =~= phs@.take(i as int));
                assert(phs@.take(i + 1).last() == phs@[i as int]);
            }
            if phs[i].is_load {
                loads.push(phs[i]);
            }
            i = i + 1;
        }
        proof {
            assert(phs@.take(i as int) =~= phs@);
        }
        let ghost ls = loads@;
        assert(ls == load_segments(phs@));
        let n = loads.len();
        let len = data.len() as u64;
        // each segment fits
        let mut k: usize = 0;
        while k < n
            invariant
                k <= n,
                n == ls.len(),
                loads@ == ls,
                ls == load_segments(phs@),
                *alloc == *old(alloc),
                alloc.wf(),
                len == data@.len(),
                forall|j: int| 0 <= j < k ==> seg_fits(#[trigger] ls[j], len as int),
            decreases n - k,
        {
            let ph = loads[k];
            if ph.virtual_addr > VA_LIMIT || ph.mem_size > VA_LIMIT - ph.virtual_addr || ph.file_size > ph.mem_size
                || ph.offset > len || ph.file_size > len - ph.offset {
                assert(!seg_fits(ls[k as int], len as int));
                return Err(ElfError::Malformed);
            }
            k = k + 1;
        }
        // no two segments share a page
        let mut x: usize = 0;
        while x < n
            invariant
                x <= n,
                n == ls.len(),
                loads@ == ls,
                ls == load_segments(phs@),
                *alloc == *old(alloc),
                alloc.wf(),
                len == data@.len(),
                forall|j: int| 0 <= j < n ==> seg_fits(#[trigger] ls[j], len as int),
                forall|a: int, b: int| 0 <= a < x && 0 <= b < n && a != b ==> segs_apart(#[trigger] ls[a], #[trigger] ls[b]),
            decreases n - x,
        {
            let mut y: usize = 0;
            while y < n
                invariant
                    x < n,
                    y <= n,
                    n == ls.len(),
                    loads@ == ls,
                ls == load_segments(phs@),
                *alloc == *old(alloc),
                alloc.wf(),
                len == data@.len(),
                    forall|j: int| 0 <= j < n ==> seg_fits(#[trigger] ls[j], len as int),
                    forall|a: int, b: int| 0 <= a < x && 0 <= b < n && a != b ==> segs_apart(#[trigger] ls[a], #[trigger] ls[b]),
                    forall|b: int| 0 <= b < y && x != b ==> segs_apart(#[trigger] ls[x as int], ls[b]),
                decreases n - y,
            {
                if x != y {
                    let fa = VirtAddr(loads[x].virtual_addr).floor().0;
                    let ea = VirtAddr(loads[x].virtual_addr + loads[x].mem_size).ceil().0;
                    let fb = VirtAddr(loads[y].virtual_addr).floor().0;
                    let eb = VirtAddr(loads[y].virtual_addr + loads[y].mem_size).ceil().0;
                    if !(ea <= fb || eb <= fa || ea <= fa || eb <= fb) {
                        assert(!segs_apart(ls[x as int], ls[y as int]));
                        return Err(ElfError::Malformed);
                    }
                }
                y = y + 1;
            }
            x = x + 1;
        }
        // the highest segment end
        let mut me: u64 = 0;
        let mut q: usize = 0;
        while q < n
            invariant
                q <= n,
                n == ls.len(),
                loads@ == ls,
                forall|a: int, b: int| 0 <= a < n && 0 <= b < n && a != b ==> segs_apart(#[trigger] ls[a], #[trigger] ls[b]),
                ls == load_segments(phs@),
                *alloc == *old(alloc),
                alloc.wf(),
                len == data@.len(),
                forall|j: int| 0 <= j < n ==> seg_fits(#[trigger] ls[j], len as int),
                me == max_end(ls.take(q as int)),
                me <= VPN_LIMIT,
            decreases n - q,
        {
            proof {
                assert(ls.take(q + 1).drop_last() =~= ls.take(q as int));
                assert(ls.take(q + 1).last() == ls[q as int]);
                lemma_seg_order(ls[q as int]);
            }
            let e = VirtAddr(loads[q].virtual_addr + loads[q].mem_size).ceil().0;
            if e > me {
                me = e;
            }
            q = q + 1;
        }
        proof {
            assert(ls.take(q as int) =~= ls);
        }
        let user_stack_bottom: u64 = me * PAGE_SIZE + PAGE_SIZE;
        let user_stack_top: u64 = user_stack_bottom + USER_STACK_SIZE;
        if user_stack_top > TRAP_CONTEXT {
            assert(!layout_ok(ls, len as int));
            return Err(ElfError::Malformed);
        }
        assert(layout_ok(ls, len as int));
        // the frames the layout may take
        let mut need: u128 = 12;
        let mut w: usize = n;
        while w > 0
            invariant
                w <= n,
                n == ls.len(),
                loads@ == ls,
                forall|j: int| 0 <= j < n ==> seg_fits(#[trigger] ls[j], len as int),
                layout_ok(ls, len as int),
                me == max_end(ls),
                me * PAGE_SIZE + PAGE_SIZE + USER_STACK_SIZE <= TRAP_CONTEXT,
                need == 12 + 3 * span_from(ls, w as int),
                12 <= need <= 12 + 3 * 0x800_0000 * (n - w),
                ls == load_segments(phs@),
                *alloc == *old(alloc),
                alloc.wf(),
                len == data@.len(),
            decreases w,
        {
            w = w - 1;
            proof {
                lemma_seg_order(ls[w as int]);
                assert(seg_fits(ls[w as int], len as int));
            }
            let span = VirtAddr(loads[w].virtual_addr + loads[w].mem_size).ceil().0 - VirtAddr(loads[w].virtual_addr).floor().0;
            assert(span == seg_end(ls[w as int]) - seg_first(ls[w as int]));
            assert(span <= 0x800_0000);
            assert(n <= usize::MAX);
            assert(3 * 0x800_0000 * (n - w) <= 3 * 0x800_0000 * 0x1_0000_0000_0000_0000) by (nonlinear_arith)
                requires n - w <= 0x1_0000_0000_0000_0000, n >= w;
            assert(need + 3 * span <= 12 + 3 * 0x800_0000 * (n - w)) by (nonlinear_arith)
                requires
                    need <= 12 + 3 * 0x800_0000 * (n - (w + 1)),
                    span <= 0x800_0000,
            ;
            assert(span_from(ls, w as int) == span + span_from(ls, w + 1));
            need = need + 3 * (span as u128);
        }
        if alloc.free_frames() < need {
            return Err(ElfError::OutOfFrames);
        }
        proof {
            lemma_span_from_nonneg(ls, 0);
        }
        proof {
            lemma_max_end(ls);
        }
        let mut ms = MemorySet::new_bare(alloc);
        let ok = ms.map_trampoline(strampoline, alloc);
        assert(ok);
        let ghost tv = trampoline_vpn();
        let ghost tramp = mapped_entry(floor_spec(strampoline as int) as u64, crate::page_table::PTE_R | crate::page_table::PTE_X);
        let mut m: usize = 0;
        while m < n
            invariant
                ms.wf(),
                alloc.wf(),
                m <= n,
                n == ls.len(),
                loads@ == ls,
                len == data@.len(),
                layout_ok(ls, len as int),
                me == max_end(ls),
                me * PAGE_SIZE + PAGE_SIZE + USER_STACK_SIZE <= TRAP_CONTEXT,
                forall|j: int| 0 <= j < n ==> seg_end(#[trigger] ls[j]) <= me,
                tv == trampoline_vpn(),
                ms.regions().len() == m,
                forall|j: int| 0 <= j < m ==> segment_region(#[trigger] ms.regions()[j], ls[j]),
                segments_mapped(ms.regions(), ms.translations(), ls, m as int),
                segments_loaded(ms, ls, data@, m as int),
                forall|p: u64| #[trigger] ms.translations().contains_key(p) ==> p == tv
                    || exists|j: int| 0 <= j < m && seg_first(#[trigger] ls[j]) <= p < seg_end(ls[j]),
                ms.translations().contains_key(tv),
                ms.translations()[tv] == tramp,
                alloc.free_count() >= 9 + 3 * span_from(ls, m as int),
            decreases n - m,
        {
            let ph = loads[m];
            proof {
                lemma_seg_order(ph);
                assert(ph == ls[m as int]);
                assert(seg_fits(ls[m as int], len as int));
                assert(seg_end(ph) <= me);
                assert(ph.offset + ph.file_size <= len);
                assert(ph.file_size <= ph.mem_size);
                lemma_span_from_nonneg(ls, m + 1);
                assert(span_from(ls, m as int) == seg_end(ph) - seg_first(ph) + span_from(ls, m + 1));
            }
            let area = MapArea::new(VirtAddr(ph.virtual_addr), VirtAddr(ph.virtual_addr + ph.mem_size), MapType::Framed, elf_permission(ph.flags));
            let dlen = data.len();
            assert(ph.offset + ph.file_size <= dlen);
            let off = ph.offset as usize;
            let off_end = (ph.offset + ph.file_size) as usize;
            assert(off as int == ph.offset as int);
            assert(off_end as int == ph.offset + ph.file_size);
            let seg = vstd::slice::slice_subrange(data, off, off_end);
            let ghost before = ms.translations();
            let ghost rs0 = ms.regions();
            let ghost old_ms = ms;
            proof {
                // no page of this segment is mapped yet
                assert forall|p: u64| seg_first(ph) <= p < seg_end(ph) implies !before.contains_key(p) by {
                    if before.contains_key(p) {
                        if p == tv {
                            assert(p < me);
                        } else {
                            let j = choose|j: int| 0 <= j < m && seg_first(#[trigger] ls[j]) <= p < seg_end(ls[j]);
                            assert(segs_apart(ls[j], ls[m as int]));
                        }
                    }
                }
                assert forall|j: int| 0 <= j < seg@.len() implies #[trigger] area.contains_page(area.start() + j / PAGE_SIZE as int)
                    && !ms.translations().contains_key((area.start() + j / PAGE_SIZE as int) as u64) by {
                    lemma_data_page_in_range(ph.virtual_addr, ph.mem_size, j);
                }
            }
            let (pushed, fr) = ms.push(area, Some(seg), alloc);
            assert(pushed);
            proof {
                let t1 = ms.translations();
                let rs1 = ms.regions();
                assert forall|j: int| 0 <= j < m implies #[trigger] rs1[j] == rs0[j] by {
                    assert(rs1[j] == rs1.drop_last()[j]);
                }
                assert(rs1[m as int] == rs1.last());
                assert(realized(area.start(), area.end(), MapType::Framed, area.perm(), fr@, before, t1));
                assert(rs1[m as int] == (area.start(), area.end(), MapType::Framed, area.perm(), fr@));
                assert(area.perm() == perm_of(ls[m as int].flags));
                assert forall|j: int, p: u64| 0 <= j < m && seg_first(ls[j]) <= p < seg_end(ls[j]) implies {
                    &&& #[trigger] rs1[j].4.contains_key(p)
                    &&& t1.contains_key(p)
                    &&& t1[p] == mapped_entry(rs1[j].4[p], perm_of(ls[j].flags))
                } by {
                    assert(rs1[j] == rs0[j]);
                    assert(rs0[j].4.contains_key(p));
                    assert(before.contains_key(p));
                    assert(t1.contains_key(p));
                    assert(t1[p] == before[p]);
                }
                assert forall|p: u64| seg_first(ls[m as int]) <= p < seg_end(ls[m as int]) implies {
                    &&& #[trigger] rs1[m as int].4.contains_key(p)
                    &&& t1.contains_key(p)
                    &&& t1[p] == mapped_entry(rs1[m as int].4[p], perm_of(ls[m as int].flags))
                } by {
                    assert(!before.contains_key(p));
                    assert(area.start() <= p < area.end());
                }
                assert(segments_mapped(rs1, t1, ls, m as int));
                assert(segment_mapped(rs1, t1, ls, m as int));
                lemma_segments_mapped_extend(rs1, t1, ls, m as int);
                assert(segments_mapped(rs1, t1, ls, m + 1));
                let ms0 = old_ms;
                assert forall|kk: int, j: int| 0 <= kk < m + 1 && 0 <= j < ls[kk].file_size implies #[trigger] ms.region_bytes(
                    kk,
                    (seg_first(ls[kk]) + j / PAGE_SIZE as int) as u64,
                )[j % PAGE_SIZE as int] == data@[ls[kk].offset + j] by {
                    if kk < m {
                        assert(ms.region_bytes(kk, (seg_first(ls[kk]) + j / PAGE_SIZE as int) as u64) == ms0.region_bytes(kk, (seg_first(ls[kk]) + j / PAGE_SIZE as int) as u64));
                    } else {
                        assert(seg@[j] == data@[ls[kk].offset + j]);
                        assert(ms.region_bytes(m as int, (area.start() + j / PAGE_SIZE as int) as u64)[j % PAGE_SIZE as int] == seg@[j]);
                    }
                }
                assert forall|kk: int, p: u64, o: int|
                    #![trigger ms.region_bytes(kk, p)[o]]
                    0 <= kk < m + 1 && seg_first(ls[kk]) <= p < seg_end(ls[kk]) && 0 <= o < PAGE_SIZE
                        && (p - seg_first(ls[kk])) * PAGE_SIZE + o >= ls[kk].file_size implies ms.region_bytes(kk, p)[o] == 0u8 by {
                    if kk < m {
                        assert(ms.region_bytes(kk, p) == ms0.region_bytes(kk, p));
                        assert(ms0.region_bytes(kk, p)[o] == 0u8);
                    } else {
                        assert(rs1[m as int].4.contains_key(p));
                        assert(fr@.contains_key(p));
                    }
                }
                assert(segments_loaded(ms, ls, data@, m + 1));
                assert forall|p: u64| #[trigger] t1.contains_key(p) implies p == tv
                    || exists|j: int| 0 <= j < m + 1 && seg_first(#[trigger] ls[j]) <= p < seg_end(ls[j]) by {
                    if !(area.start() <= p < area.end()) {
                        assert(before.contains_key(p));
                        if p != tv {
                            let j = choose|j: int| 0 <= j < m && seg_first(#[trigger] ls[j]) <= p < seg_end(ls[j]);
                            assert(0 <= j < m + 1 && seg_first(ls[j]) <= p < seg_end(ls[j]));
                        }
                    } else {
                        assert(seg_first(ls[m as int]) <= p < seg_end(ls[m as int]));
                    }
                }
                assert(before.contains_key(tv));
                assert(!(area.start() <= tv < area.end()));
                assert(t1.contains_key(tv));
                assert(t1[tv] == before[tv]);
            }
            m = m + 1;
        }
        proof {
            lemma_page_addr((me + 1) as u64);
            lemma_page_addr((me + 3) as u64);
        }
        let ghost rs0 = ms.regions();
        let ghost t0 = ms.translations();
        let ghost ms_loop = ms;
        let (ok1, _) = ms.push(
            MapArea::new(VirtAddr(user_stack_bottom), VirtAddr(user_stack_top), MapType::Framed, MapPermission { bits: MAP_R | MAP_W | MAP_U }),
            None,
            alloc,
        );
        assert(ok1);
        let ghost rs1 = ms.regions();
        let ghost t1 = ms.translations();
        let ghost ms_mid = ms;
        let (ok2, _) = ms.push(
            MapArea::new(VirtAddr(TRAP_CONTEXT), VirtAddr(TRAMPOLINE), MapType::Framed, MapPermission { bits: MAP_R | MAP_W }),
            None,
            alloc,
        );
        assert(ok2);
        proof {
            let rs = ms.regions();
            let t = ms.translations();
            assert(rs1[n as int] == rs[n as int]) by {
                assert(rs[n as int] == rs.drop_last()[n as int]);
            }
            assert forall|j: int| 0 <= j < n implies #[trigger] rs[j] == rs0[j] by {
                assert(rs[j] == rs.drop_last()[j]);
                assert(rs1[j] == rs1.drop_last()[j]);
            }
            assert(segments_mapped(rs0, t0, ls, n as int));
            assert forall|j: int| 0 <= j < n implies #[trigger] rs[j] == rs0[j] by {}
            assert forall|p: u64| #[trigger] t0.contains_key(p) implies t.contains_key(p) && t[p] == t0[p] by {
                assert(t1.contains_key(p));
                assert(t1[p] == t0[p]);
                assert(t.contains_key(p));
            }
            lemma_segments_mapped_kept(rs0, t0, rs, t, ls, n as int);
            assert(rs[n as int].0 == me + 1);
            assert(rs[n as int].1 == me + 3);
            assert(ms.wf());
            assert(rs.len() == n + 2);
            assert(forall|k: int| 0 <= k < n ==> segment_region(#[trigger] rs[k], ls[k]));
            assert(rs[n as int].2 == MapType::Framed);
            assert(rs[n as int].3 == MAP_R | MAP_W | MAP_U);
            assert(user_stack_top == stack_top(ls));
            assert(rs[n + 1].0 == floor_spec(TRAP_CONTEXT as int));
            assert(rs[n + 1].1 == ceil_spec(TRAMPOLINE as int));
            assert(rs[n + 1].3 == MAP_R | MAP_W);
            assert(t.contains_key(tv));
            assert(t[tv] == tramp);
            assert(segments_mapped(rs, t, ls, n as int));
            assert forall|kk: int, v: u64| 0 <= kk < n implies #[trigger] ms.region_bytes(kk, v) == ms_loop.region_bytes(kk, v) by {
                assert(ms_mid.region_bytes(kk, v) == ms_loop.region_bytes(kk, v));
            }
            assert(segments_loaded(ms, ls, data@, n as int));
            assert(regions_disjoint(rs));
            assert(t0.contains_key(tv));
            assert(t1.contains_key(tv));
            assert forall|a: int, b: int|
                0 <= a < rs.len() && 0 <= b < rs.len() && a != b implies #[trigger] rs[a].1 <= #[trigger] rs[b].0
                    || rs[b].1 <= rs[a].0 || rs[a].1 <= rs[a].0 || rs[b].1 <= rs[b].0 by {
                if a < n && b < n {
                    assert(segs_apart(ls[a], ls[b]));
                } else if a < n {
                    assert(seg_end(ls[a]) <= me);
                } else if b < n {
                    assert(seg_end(ls[b]) <= me);
                }
            }
            assert(!in_some_region(rs, tv as int)) by {
                if in_some_region(rs, tv as int) {
                    let j = choose|j: int| 0 <= j < rs.len() && #[trigger] rs[j].0 <= tv < rs[j].1;
                    if j < n {
                        assert(seg_end(ls[j]) <= me);
                    }
                }
            }
        }
        Ok((ms, user_stack_top, entry))
    }

    /// Builds a user address space from the 64-bit little-endian ELF image
    /// `elf_data`, as [`MemorySet::from_elf_segments`] does with its program
    /// headers and entry point. An image that does not start with the ELF
    /// magic is rejected with `BadMagic`; one that is not a 64-bit
    /// little-endian image or whose program-header table lies outside it,
    /// with `Malformed`.
    pub fn from_elf(elf_data: &[u8], strampoline: u64, alloc: &mut StackFrameAllocator) -> (r: Result<(MemorySet, u64, u64), ElfError>)
        requires
            old(alloc).wf(),
            strampoline < 0x100_0000_0000_0000,
        ensures
            final(alloc).wf(),
            (r == Err::<(MemorySet, u64, u64), ElfError>(ElfError::BadMagic)) == !has_elf_magic(elf_data@),
            (r == Err::<(MemorySet, u64, u64), ElfError>(ElfError::Malformed)) == (has_elf_magic(elf_data@) && !(
                elf64_header(elf_data@) && elf_table_ok(elf_data@)
                && layout_ok(load_segments(elf_program_headers(elf_data@)), elf_data@.len() as int))),
            (r == Err::<(MemorySet, u64, u64), ElfError>(ElfError::OutOfFrames)) == (elf64_header(elf_data@) && elf_table_ok(elf_data@)
                && layout_ok(load_segments(elf_program_headers(elf_data@)), elf_data@.len() as int)
                && old(alloc).free_count() < frames_needed(load_segments(elf_program_headers(elf_data@)))),
            r is Ok ==> user_space_post(
                load_segments(elf_program_headers(elf_data@)),
                elf_data@,
                elf_entry(elf_data@) as u64,
                strampoline,
                r.unwrap().0,
                r.unwrap().1,
                r.unwrap().2,
            ),
    {
        if elf_data.len() < 4 || elf_data[0] != 0x7fu8 || elf_data[1] != 0x45u8 || elf_data[2] != 0x4cu8 || elf_data[3] != 0x46u8 {
            return Err(ElfError::BadMagic);
        }
        let phs = match read_program_headers(elf_data) {
            Some(phs) => phs,
            None => return Err(ElfError::Malformed),
        };
        let entry = read_entry(elf_data);
        MemorySet::from_elf_segments(entry, &phs, elf_data, strampoline, alloc)
    }

    /// Adds an identical region over the bytes `[start, end)` with
    /// permissions `perm`, and maps it.
    fn push_section(&mut self, start: u64, end: u64, perm: u8, alloc: &mut StackFrameAllocator) -> (r: bool)
        requires
            old(self).wf(),
            old(alloc).wf(),
            end <= VA_LIMIT,
        ensures
            final(self).wf(),
            final(alloc).wf(),
            old(alloc).free_count() >= 3 * page_span(start, end) ==> r,
            final(alloc).free_count() + 3 * page_span(start, end) >= old(alloc).free_count(),
            r ==> final(self).regions().len() == old(self).regions().len() + 1,
            r ==> final(self).regions().drop_last() == old(self).regions(),
            r ==> section_region(final(self).regions().last(), start, end, perm),
            r ==> forall|k: u64| #[trigger] old(self).translations().contains_key(k) ==> final(self).translations().contains_key(k)
                && final(self).translations()[k] == old(self).translations()[k],
            r ==> exists|fr: Map<u64, u64>| #[trigger] realized(
                floor_spec(start as int) as u64,
                ceil_spec(end as int) as u64,
                MapType::Identical,
                perm,
                fr,
                old(self).translations(),
                final(self).translations(),
            ),
    {
        let area = MapArea::new(VirtAddr(start), VirtAddr(end), MapType::Identical, MapPermission { bits: perm });
        let ghost t0 = self.translations();
        let (ok, fr) = self.push(area, None, alloc);
        proof {
            if ok {
                let t1 = self.translations();
                assert(realized(area.start(), area.end(), area.kind(), area.perm(), fr@, t0, t1));
                assert(area.start() == floor_spec(start as int) as u64);
                assert(area.end() == ceil_spec(end as int) as u64);
                assert(realized(floor_spec(start as int) as u64, ceil_spec(end as int) as u64, MapType::Identical, perm, fr@, t0, t1));
                assert(self.regions().drop_last() =~= old(self).regions());
                assert forall|k: u64| #[trigger] t0.contains_key(k) implies t1.contains_key(k) && t1[k] == t0[k] by {
                    if area.start() <= k < area.end() {
                    } else {
                        assert(t1.contains_key(k) == t0.contains_key(k));
                    }
                }
            }
        }
        ok
    }

    /// Builds the kernel address space: the trampoline, mapped to the page at
    /// `strampoline` outside every region, and one identical region per
    /// section: text (read, execute), read-only data (read), data (read,
    /// write), bss with the boot stack (read, write), and the rest of
    /// physical memory up to `MEMORY_END` (read, write). Returns `None` where
    /// the frame pool runs short.
    pub fn new_kernel(layout: &KernelLayout, alloc: &mut StackFrameAllocator) -> (r: Option<MemorySet>)
        requires
            old(alloc).wf(),
            layout.etext <= VA_LIMIT,
            layout.erodata <= VA_LIMIT,
            layout.edata <= VA_LIMIT,
            layout.ebss <= VA_LIMIT,
            layout.strampoline < 0x100_0000_0000_0000,
        ensures
            final(alloc).wf(),
            old(alloc).free_count() >= kernel_frames_needed(*layout) ==> r is Some,
            r is Some ==> ({
                let ms = r.unwrap();
                &&& ms.wf()
                &&& ms.regions().len() == 5
                &&& section_region(ms.regions()[0], layout.stext, layout.etext, MAP_R | MAP_X)
                &&& section_region(ms.regions()[1], layout.srodata, layout.erodata, MAP_R)
                &&& section_region(ms.regions()[2], layout.sdata, layout.edata, MAP_R | MAP_W)
                &&& section_region(ms.regions()[3], layout.sbss_with_stack, layout.ebss, MAP_R | MAP_W)
                &&& section_region(ms.regions()[4], layout.ekernel, MEMORY_END, MAP_R | MAP_W)
                &&& ms.translations().contains_key(trampoline_vpn())
                &&& ms.translations()[trampoline_vpn()] == mapped_entry(
                    floor_spec(layout.strampoline as int) as u64,
                    crate::page_table::PTE_R | crate::page_table::PTE_X,
                )
                &&& kernel_ordered(*layout) ==> {
                    &&& section_identical(ms.translations(), layout.stext, layout.etext, MAP_R | MAP_X)
                    &&& section_identical(ms.translations(), layout.srodata, layout.erodata, MAP_R)
                    &&& section_identical(ms.translations(), layout.sdata, layout.edata, MAP_R | MAP_W)
                    &&& section_identical(ms.translations(), layout.sbss_with_stack, layout.ebss, MAP_R | MAP_W)
                    &&& section_identical(ms.translations(), layout.ekernel, MEMORY_END, MAP_R | MAP_W)
                }
            }),
    {
        if alloc.free_frames() < 1 {
            return None;
        }
        let mut ms = MemorySet::new_bare(alloc);
        if !ms.map_trampoline(layout.strampoline, alloc) {
            return None;
        }
        let ghost tv = trampoline_vpn();
        let ghost te = ms.translations()[tv];
        assert(ms.translations().contains_key(tv));
        let ghost t0 = ms.translations();
        assert(t0 =~= Map::<u64, PageTableEntry>::empty().insert(tv, te));
        if !ms.push_section(layout.stext, layout.etext, MAP_R | MAP_X, alloc) {
            return None;
        }
        assert(ms.translations().contains_key(tv) && ms.translations()[tv] == te);
        let ghost t1 = ms.translations();
        let ghost r1 = ms.regions();
        if !ms.push_section(layout.srodata, layout.erodata, MAP_R, alloc) {
            return None;
        }
        assert(ms.translations().contains_key(tv) && ms.translations()[tv] == te);
        let ghost t2 = ms.translations();
        let ghost r2 = ms.regions();
        if !ms.push_section(layout.sdata, layout.edata, MAP_R | MAP_W, alloc) {
            return None;
        }
        assert(ms.translations().contains_key(tv) && ms.translations()[tv] == te);
        let ghost t3 = ms.translations();
        let ghost r3 = ms.regions();
        if !ms.push_section(layout.sbss_with_stack, layout.ebss, MAP_R | MAP_W, alloc) {
            return None;
        }
        assert(ms.translations().contains_key(tv) && ms.translations()[tv] == te);
        let ghost t4 = ms.translations();
        let ghost r4 = ms.regions();
        if !ms.push_section(layout.ekernel, MEMORY_END, MAP_R | MAP_W, alloc) {
            return None;
        }
        assert(ms.translations().contains_key(tv) && ms.translations()[tv] == te);
        let ghost t5 = ms.translations();
        proof {
            if kernel_ordered(*layout) {
                lemma_kernel_sections(*layout, t0, t1, t2, t3, t4, t5, tv);
            }
        }
        proof {
            let rs = ms.regions();
            assert(r1.len() == 1 && r1[0] == r1.last());
            assert(r2[0] == r1[0] && r2[1] == r2.last()) by {
                assert(r2.drop_last() == r1);
                assert(r2[0] == r2.drop_last()[0]);
            }
            assert(r3[0] == r2[0] && r3[1] == r2[1] && r3[2] == r3.last()) by {
                assert(r3[0] == r3.drop_last()[0]);
                assert(r3[1] == r3.drop_last()[1]);
            }
            assert(r4[0] == r3[0] && r4[1] == r3[1] && r4[2] == r3[2] && r4[3] == r4.last()) by {
                assert(r4[0] == r4.drop_last()[0]);
                assert(r4[1] == r4.drop_last()[1]);
                assert(r4[2] == r4.drop_last()[2]);
            }
            assert(rs[0] == r4[0] && rs[1] == r4[1] && rs[2] == r4[2] && rs[3] == r4[3] && rs[4] == rs.last()) by {
                assert(rs[0] == rs.drop_last()[0]);
                assert(rs[1] == rs.drop_last()[1]);
                assert(rs[2] == rs.drop_last()[2]);
                assert(rs[3] == rs.drop_last()[3]);
            }
        }
        Some(ms)
    }

    /// Whether some region meets the pages `[start, end)`.
    pub fn include_framed_area(&self, start: VirtPageNum, end: VirtPageNum) -> (r: bool)
        ensures
            r == intersects_any(self.regions(), start.0, end.0),
    {
        let mut i: usize = 0;
        while i < self.areas.len()
            invariant
                0 <= i <= self.areas@.len(),
                self.regions().len() == self.areas@.len(),
                forall|j: int| 0 <= j < i ==> (#[trigger] self.regions()[j].0 >= end.0 || self.regions()[j].1 <= start.0),
            decreases self.areas@.len() - i,
        {
            let area = &self.areas[i];
            assert(self.regions()[i as int] == region_view(self.areas@[i as int]));
            if !(area.get_start().0 >= end.0 || area.get_end().0 <= start.0) {
                return true;
            }
            i = i + 1;
        }
        false
    }

    /// Whether some region owns a frame for page `vpn`; also whether `vpn`
    /// lies in the range of some region.
    fn page_state(&self, vpn: u64) -> (r: (bool, bool))
        ensures
            r.0 == owned(self.regions(), vpn),
            r.1 == in_some_region(self.regions(), vpn as int),
    {
        let mut i: usize = 0;
        let mut has_frame = false;
        let mut inside = false;
        while i < self.areas.len()
            invariant
                0 <= i <= self.areas@.len(),
                self.regions().len() == self.areas@.len(),
                has_frame == exists|j: int| 0 <= j < i && #[trigger] self.regions()[j].4.contains_key(vpn),
                inside == exists|j: int| 0 <= j < i && #[trigger] self.regions()[j].0 <= vpn < self.regions()[j].1,
            decreases self.areas@.len() - i,
        {
            let area = &self.areas[i];
            let ghost rs = self.regions();
            assert(rs[i as int] == region_view(self.areas@[i as int]));
            if area.get_start().0 <= vpn && vpn < area.get_end().0 {
                inside = true;
            }
            if area.owns(VirtPageNum(vpn)) {
                has_frame = true;
            }
            proof {
                if has_frame {
                    if area.frames().contains_key(vpn) {
                        assert(rs[i as int].4.contains_key(vpn));
                    }
                } else {
                    assert forall|j: int| 0 <= j < i + 1 implies !#[trigger] rs[j].4.contains_key(vpn) by {
                        if j == i {
                        }
                    }
                }
                if inside {
                    if area.start() <= vpn && vpn < area.end() {
                        assert(rs[i as int].0 <= vpn < rs[i as int].1);
                    }
                } else {
                    assert forall|j: int| 0 <= j < i + 1 implies !(#[trigger] rs[j].0 <= vpn < rs[j].1) by {
                        if j == i {
                        }
                    }
                }
            }
            i = i + 1;
        }
        (has_frame, inside)
    }

    /// Whether `mmap` may take every page of `[start_va, end_va)`: each one
    /// either has a frame in some region already, or lies in no region.
    pub fn judge_map_right(&self, start_va: VirtPageNum, end_va: VirtPageNum) -> (r: bool)
        ensures
            r == forall|p: u64| start_va.0 <= p < end_va.0 ==> #[trigger] page_mappable(self.regions(), p),
    {
        let mut p = start_va.0;
        while p < end_va.0
            invariant
                start_va.0 <= p,
                p == start_va.0 || p <= end_va.0,
                forall|q: u64| start_va.0 <= q < p ==> #[trigger] page_mappable(self.regions(), q),
            decreases end_va.0 - p,
        {
            let (has_frame, inside) = self.page_state(p);
            if !has_frame && inside {
                assert(start_va.0 <= p < end_va.0);
                assert(!page_mappable(self.regions(), p));
                return false;
            }
            p = p + 1;
        }
        true
    }

    /// Whether every page of `[start_va, end_va)` has a frame in some region.
    pub fn judge_unmap_right(&self, start_va: VirtPageNum, end_va: VirtPageNum) -> (r: bool)
        ensures
            r == forall|p: u64| start_va.0 <= p < end_va.0 ==> #[trigger] owned(self.regions(), p),
    {
        let mut p = start_va.0;
        while p < end_va.0
            invariant
                start_va.0 <= p,
                p == start_va.0 || p <= end_va.0,
                forall|q: u64| start_va.0 <= q < p ==> #[trigger] owned(self.regions(), q),
            decreases end_va.0 - p,
        {
            let (has_frame, _) = self.page_state(p);
            if !has_frame {
                assert(start_va.0 <= p < end_va.0);
                assert(!owned(self.regions(), p));
                return false;
            }
            p = p + 1;
        }
        true
    }
}

} // verus!

verus! {

/// Every region of `rs` owns frames only for pages of its own range.
pub open spec fn regions_wf(rs: Seq<RegionView>) -> bool {
    forall|i: int, k: u64| 0 <= i < rs.len() && #[trigger] rs[i].4.contains_key(k) ==> rs[i].0 <= k < rs[i].1
}

/// The regions of a well-formed address space own frames only inside their ranges.
pub proof fn lemma_wf_regions(ms: MemorySet)
    requires
        ms.wf(),
    ensures
        regions_wf(ms.regions()),
        forall|i: int| 0 <= i < ms.regions().len() ==> #[trigger] ms.regions()[i].1 <= VPN_LIMIT,
{
    assert forall|i: int, k: u64| 0 <= i < ms.regions().len() && #[trigger] ms.regions()[i].4.contains_key(k) implies ms.regions()[i].0 <= k < ms.regions()[i].1 by {
        assert(ms.regions()[i] == region_view(ms.areas@[i]));
        assert(ms.areas@[i].wf());
    }
    assert forall|i: int| 0 <= i < ms.regions().len() implies #[trigger] ms.regions()[i].1 <= VPN_LIMIT by {
        assert(ms.regions()[i] == region_view(ms.areas@[i]));
        assert(ms.areas@[i].wf());
    }
}

proof fn lemma_filter_all<A>(s: Seq<A>, pred: spec_fn(A) -> bool)
    requires
        forall|i: int| 0 <= i < s.len() ==> pred(#[trigger] s[i]),
    ensures
        s.filter(pred) == s,
    decreases s.len(),
{
    reveal(Seq::filter);
    if s.len() > 0 {
        lemma_filter_all(s.drop_last(), pred);
        assert(s.drop_last().push(s.last()) =~= s);
    }
}

/// An `mmap` of pages that lie in no region and have no translation,
/// followed at once by an `munmap` of the same pages, gives back the
/// regions and the translations there were before, where every region owns
/// some frame.
pub proof fn lemma_mmap_munmap_round_trip(
    rs0: Seq<RegionView>,
    t0: Map<u64, PageTableEntry>,
    rs1: Seq<RegionView>,
    t1: Map<u64, PageTableEntry>,
    rs2: Seq<RegionView>,
    t2: Map<u64, PageTableEntry>,
    start: u64,
    end: u64,
    perm: u8,
)
    requires
        regions_wf(rs0),
        forall|p: u64| start <= p < end ==> !#[trigger] in_some_region(rs0, p as int),
        forall|p: u64| start <= p < end ==> !#[trigger] t0.contains_key(p),
        forall|i: int| 0 <= i < rs0.len() ==> #[trigger] has_frames(rs0[i]),
        mmap_post(rs0, rs1, t0, t1, start, end, perm),
        munmap_post(rs1, rs2, t1, t2, start, end),
    ensures
        rs2 == rs0,
        t2 == t0,
{
    assert(judge_ok(rs0, start, end)) by {
        assert forall|p: u64| start <= p < end implies #[trigger] page_mappable(rs0, p) by {
            assert(!in_some_region(rs0, p as int));
        }
    }
    if start < end {
        assert(free_in(rs0, start, end, start));
        let n = rs0.len() as int;
        let last = rs1.last();
        assert(rs1.take(n) == rs0);
        assert(free_in(rs0, start, end, (end - 1) as u64));
        assert(last.0 <= start);
        assert(end - 1 < last.1);
        assert(last.0 >= start);
        assert(last.1 - 1 < end);
        assert(last.0 == start && last.1 == end);
        assert(realized(start, end, MapType::Framed, perm, last.4, t0, t1));
        // every page of the range is owned by the new region alone
        assert(owned_in(rs1, start, end) =~= Set::new(|k: u64| start <= k < end)) by {
            assert forall|k: u64| start <= k < end implies #[trigger] owned(rs1, k) by {
                assert(!t0.contains_key(k));
                assert(last.4.contains_key(k));
                assert(rs1[n] == last);
            }
        }
        assert(t2 =~= t0) by {
            assert forall|k: u64| #[trigger] t2.contains_key(k) == t0.contains_key(k) by {
                if start <= k < end {
                    assert(!t0.contains_key(k));
                } else {
                    assert(t1.contains_key(k) == t0.contains_key(k));
                }
            }
            assert forall|k: u64| #[trigger] t2.contains_key(k) implies t2[k] == t0[k] by {
                assert(!(start <= k < end));
            }
        }
        let st = strip_all(rs1, start, end);
        assert(st == strip_all(rs0, start, end).push(strip(last, start, end))) by {
            assert(rs1 =~= rs0.push(last)) by {
                assert(rs1.take(n) == rs0);
                assert forall|i: int| 0 <= i < n implies rs1[i] == rs0[i] by {
                    assert(rs1.take(n)[i] == rs1[i]);
                }
            }
            assert(st =~= strip_all(rs0, start, end).push(strip(last, start, end)));
        }
        assert(strip_all(rs0, start, end) =~= rs0) by {
            assert forall|i: int| 0 <= i < n implies #[trigger] strip_all(rs0, start, end)[i] == rs0[i] by {
                assert(strip(rs0[i], start, end).4 =~= rs0[i].4) by {
                    assert forall|k: u64| #[trigger] rs0[i].4.contains_key(k) implies !(start <= k < end) by {
                        assert(rs0[i].0 <= k < rs0[i].1);
                        if start <= k < end {
                            assert(in_some_region(rs0, k as int));
                        }
                    }
                }
            }
        }
        assert(!has_frames(strip(last, start, end))) by {
            assert(strip(last, start, end).4 =~= Map::<u64, u64>::empty()) by {
                assert forall|k: u64| #[trigger] last.4.contains_key(k) implies start <= k < end by {
                    assert(realized(start, end, MapType::Framed, perm, last.4, t0, t1));
                }
            }
        }
        reveal(Seq::filter);
        assert(st.drop_last() =~= rs0);
        lemma_filter_all(rs0, keep_pred());
    } else {
        assert(!exists|p: u64| #[trigger] free_in(rs0, start, end, p));
        assert(rs1 == rs0 && t1 == t0);
        assert(owned_in(rs1, start, end) =~= Set::<u64>::empty());
        assert(t2 =~= t0);
        assert(strip_all(rs0, start, end) =~= rs0) by {
            assert forall|i: int| 0 <= i < rs0.len() implies #[trigger] strip_all(rs0, start, end)[i] == rs0[i] by {
                assert(strip(rs0[i], start, end).4 =~= rs0[i].4);
            }
        }
        lemma_filter_all(rs0, keep_pred());
    }
}

/// Whether regions `a` and `b` share no page.
pub open spec fn disjoint_pair(a: RegionView, b: RegionView) -> bool {
    a.1 <= b.0 || b.1 <= a.0 || a.1 <= a.0 || b.1 <= b.0
}

/// An `mmap` that may take every page of its range, and whose pages in no
/// region form one unbroken run, keeps the regions of an address space
/// from overlapping.
pub proof fn lemma_mmap_keeps_regions_disjoint(
    rs0: Seq<RegionView>,
    t0: Map<u64, PageTableEntry>,
    rs1: Seq<RegionView>,
    t1: Map<u64, PageTableEntry>,
    start: u64,
    end: u64,
    perm: u8,
)
    requires
        regions_disjoint(rs0),
        judge_ok(rs0, start, end),
        forall|p: u64, q: u64, x: u64|
            #![trigger free_in(rs0, start, end, p), free_in(rs0, start, end, q), in_some_region(rs0, x as int)]
            free_in(rs0, start, end, p) && free_in(rs0, start, end, q) && p <= x <= q ==> !in_some_region(rs0, x as int),
        mmap_post(rs0, rs1, t0, t1, start, end, perm),
    ensures
        regions_disjoint(rs1),
{
    if exists|p: u64| #[trigger] free_in(rs0, start, end, p) {
        let n = rs0.len() as int;
        let last = rs1.last();
        let m = last.0;
        let mm = (last.1 - 1) as u64;
        assert(rs1.take(n) == rs0);
        assert forall|i: int| 0 <= i < n implies #[trigger] rs1[i] == rs0[i] by {
            assert(rs1.take(n)[i] == rs1[i]);
        }
        assert forall|i: int| 0 <= i < n implies #[trigger] disjoint_pair(rs0[i], last) by {
            let a = rs0[i].0;
            let b = rs0[i].1;
            if !disjoint_pair(rs0[i], last) {
                let x: u64 = if a > m { a } else { m };
                assert(rs0[i].0 <= x < rs0[i].1);
                assert(in_some_region(rs0, x as int));
                assert(free_in(rs0, start, end, m));
                assert(free_in(rs0, start, end, mm));
                assert(m <= x <= mm);
            }
        }
        assert forall|i: int, j: int|
            0 <= i < rs1.len() && 0 <= j < rs1.len() && i != j implies #[trigger] rs1[i].1 <= #[trigger] rs1[j].0
                || rs1[j].1 <= rs1[i].0 || rs1[i].1 <= rs1[i].0 || rs1[j].1 <= rs1[j].0 by {
            if i < n && j < n {
                assert(rs1[i] == rs0[i] && rs1[j] == rs0[j]);
            } else if i < n {
                assert(rs1[j] == last);
                assert(disjoint_pair(rs0[i], last));
            } else {
                assert(rs1[i] == last);
                assert(rs1[j] == rs0[j]);
                assert(disjoint_pair(rs0[j], last));
            }
        }
    } else {
        assert(same_layout(rs0, rs1));
        assert forall|i: int, j: int|
            0 <= i < rs1.len() && 0 <= j < rs1.len() && i != j implies #[trigger] rs1[i].1 <= #[trigger] rs1[j].0
                || rs1[j].1 <= rs1[i].0 || rs1[i].1 <= rs1[i].0 || rs1[j].1 <= rs1[j].0 by {
            assert(rs0[i].0 == rs1[i].0 && rs0[i].1 == rs1[i].1);
            assert(rs0[j].0 == rs1[j].0 && rs0[j].1 == rs1[j].1);
        }
    }
}

/// Adding a region whose pages meet no region keeps the regions of an
/// address space from overlapping, as `insert_framed_area` does on success.
pub proof fn lemma_insert_keeps_regions_disjoint(rs: Seq<RegionView>, v: RegionView)
    requires
        regions_disjoint(rs),
        !intersects_any(rs, v.0, v.1),
    ensures
        regions_disjoint(rs.push(v)),
{
    let g = rs.push(v);
    assert forall|i: int, j: int|
        0 <= i < g.len() && 0 <= j < g.len() && i != j implies #[trigger] g[i].1 <= #[trigger] g[j].0
            || g[j].1 <= g[i].0 || g[i].1 <= g[i].0 || g[j].1 <= g[j].0 by {
        if i < rs.len() && j < rs.len() {
            assert(g[i] == rs[i] && g[j] == rs[j]);
        } else if i < rs.len() {
            assert(g[i] == rs[i]);
            assert(rs[i].0 >= v.1 || rs[i].1 <= v.0);
        } else {
            assert(g[j] == rs[j]);
            assert(rs[j].0 >= v.1 || rs[j].1 <= v.0);
        }
    }
}

proof fn lemma_filter_keeps_disjoint(s: Seq<RegionView>, pred: spec_fn(RegionView) -> bool)
    requires
        regions_disjoint(s),
    ensures
        regions_disjoint(s.filter(pred)),
    decreases s.len(),
{
    reveal(Seq::filter);
    if s.len() > 0 {
        let d = s.drop_last();
        assert(regions_disjoint(d)) by {
            assert forall|i: int, j: int| 0 <= i < d.len() && 0 <= j < d.len() && i != j implies #[trigger] d[i].1 <= #[trigger] d[j].0
                || d[j].1 <= d[i].0 || d[i].1 <= d[i].0 || d[j].1 <= d[j].0 by {
                assert(d[i] == s[i] && d[j] == s[j]);
            }
        }
        lemma_filter_keeps_disjoint(d, pred);
        let f = d.filter(pred);
        if pred(s.last()) {
            let g = f.push(s.last());
            assert forall|i: int, j: int| 0 <= i < g.len() && 0 <= j < g.len() && i != j implies #[trigger] g[i].1 <= #[trigger] g[j].0
                || g[j].1 <= g[i].0 || g[i].1 <= g[i].0 || g[j].1 <= g[j].0 by {
                if i < f.len() && j < f.len() {
                    assert(g[i] == f[i] && g[j] == f[j]);
                } else if i < f.len() {
                    assert(f.contains(f[i]));
                    d.lemma_filter_contains_rev(pred, f[i]);
                    let k = choose|k: int| 0 <= k < d.len() && d[k] == f[i];
                    assert(s[k] == f[i]);
                    assert(g[j] == s[s.len() - 1]);
                    assert(disjoint_pair(s[k], s[s.len() - 1]));
                } else {
                    assert(f.contains(f[j]));
                    d.lemma_filter_contains_rev(pred, f[j]);
                    let k = choose|k: int| 0 <= k < d.len() && d[k] == f[j];
                    assert(s[k] == f[j]);
                    assert(g[i] == s[s.len() - 1]);
                    assert(disjoint_pair(s[k], s[s.len() - 1]));
                }
            }
        }
    }
}

/// An `munmap` keeps the regions of an address space from overlapping.
pub proof fn lemma_munmap_keeps_regions_disjoint(
    rs0: Seq<RegionView>,
    t0: Map<u64, PageTableEntry>,
    rs1: Seq<RegionView>,
    t1: Map<u64, PageTableEntry>,
    start: u64,
    end: u64,
)
    requires
        regions_disjoint(rs0),
        munmap_post(rs0, rs1, t0, t1, start, end),
    ensures
        regions_disjoint(rs1),
{
    let st = strip_all(rs0, start, end);
    assert(regions_disjoint(st)) by {
        assert forall|i: int, j: int| 0 <= i < st.len() && 0 <= j < st.len() && i != j implies #[trigger] st[i].1 <= #[trigger] st[j].0
            || st[j].1 <= st[i].0 || st[i].1 <= st[i].0 || st[j].1 <= st[j].0 by {
            assert(st[i].0 == rs0[i].0 && st[i].1 == rs0[i].1);
            assert(st[j].0 == rs0[j].0 && st[j].1 == rs0[j].1);
        }
    }
    lemma_filter_keeps_disjoint(st, keep_pred());
}

impl PageTable {
    /// The read-only view of the page table whose token is `satp`, looked
    /// up among the live address spaces `spaces`; `None` where none has that
    /// token. The view is borrowed from its owner, so it cannot outlive it.
    pub fn from_token<'a>(satp: u64, spaces: &'a Vec<MemorySet>) -> (r: Option<&'a PageTable>)
        requires
            forall|i: int| 0 <= i < spaces@.len() ==> #[trigger] spaces@[i].wf(),
        ensures
            r is None <==> forall|i: int| 0 <= i < spaces@.len() ==> #[trigger] spaces@[i].token_spec() != satp,
            r is Some ==> exists|i: int| 0 <= i < spaces@.len() && #[trigger] spaces@[i].token_spec() == satp
                && r.unwrap()@ == spaces@[i].translations() && r.unwrap().wf(),
            r is Some ==> r.unwrap().token_spec() == satp,
    {
        let mut i: usize = 0;
        while i < spaces.len()
            invariant
                i <= spaces@.len(),
                forall|j: int| 0 <= j < spaces@.len() ==> #[trigger] spaces@[j].wf(),
                forall|j: int| 0 <= j < i ==> #[trigger] spaces@[j].token_spec() != satp,
            decreases spaces@.len() - i,
        {
            if spaces[i].token() == satp {
                let pt = spaces[i].page_table();
                assert(spaces@[i as int].token_spec() == satp);
                return Some(pt);
            }
            i = i + 1;
        }
        None
    }
}

/// Whether the page that holds byte `addr` is mapped in `t` without flag `flag`.
pub open spec fn mapped_without(t: Map<u64, PageTableEntry>, addr: int, flag: u8) -> bool {
    let e = translate_spec(t, floor_spec(addr) as u64);
    e is Some && !e.unwrap().has_flag(flag)
}

/// Checks the kernel address space `ms` built from `layout`: the middle
/// page of the text section and that of the read-only data are mapped and
/// not writable, and the middle page of the data section is mapped and not
/// executable.
pub fn remap_test(ms: &MemorySet, layout: &KernelLayout) -> (r: bool)
    requires
        ms.wf(),
        layout.stext <= VA_LIMIT,
        layout.etext <= VA_LIMIT,
        layout.srodata <= VA_LIMIT,
        layout.erodata <= VA_LIMIT,
        layout.sdata <= VA_LIMIT,
        layout.edata <= VA_LIMIT,
    ensures
        r == (mapped_without(ms.translations(), (layout.stext + layout.etext) / 2, crate::page_table::PTE_W)
            && mapped_without(ms.translations(), (layout.srodata + layout.erodata) / 2, crate::page_table::PTE_W)
            && mapped_without(ms.translations(), (layout.sdata + layout.edata) / 2, crate::page_table::PTE_X)),
{
    let mid_text = VirtAddr((layout.stext + layout.etext) / 2);
    let mid_rodata = VirtAddr((layout.srodata + layout.erodata) / 2);
    let mid_data = VirtAddr((layout.sdata + layout.edata) / 2);
    let text_ok = match ms.translate(mid_text.floor()) {
        Some(e) => !e.writable(),
        None => false,
    };
    let rodata_ok = match ms.translate(mid_rodata.floor()) {
        Some(e) => !e.writable(),
        None => false,
    };
    let data_ok = match ms.translate(mid_data.floor()) {
        Some(e) => !e.executable(),
        None => false,
    };
    text_ok && rodata_ok && data_ok
}

} // verus!
