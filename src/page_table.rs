//! Page-table entries and the three-level SV39 page table.
use vstd::prelude::*;
use std::collections::BTreeMap;
use crate::address::{PhysPageNum, VirtPageNum};
use crate::config::{PPN_LIMIT, VPN_LIMIT};
use crate::frame_allocator::{FrameTracker, StackFrameAllocator};

verus! {

broadcast use vstd::std_specs::btree::group_btree_axioms;

/// Entry is valid.
pub const PTE_V: u8 = 1;
/// Page may be read.
pub const PTE_R: u8 = 2;
/// Page may be written.
pub const PTE_W: u8 = 4;
/// Page may be executed.
pub const PTE_X: u8 = 8;
/// Page is reachable from user mode.
pub const PTE_U: u8 = 16;
/// Mapping is global.
pub const PTE_G: u8 = 32;
/// Page was accessed.
pub const PTE_A: u8 = 64;
/// Page was written.
pub const PTE_D: u8 = 128;

/// The status and permission byte of a page-table entry.
#[derive(Clone, Copy, Debug, PartialEq, Eq, Structural)]
pub struct PTEFlags {
    pub bits: u8,
}

impl PTEFlags {
    /// The flag set with exactly the bits of `bits`.
    pub fn from_bits(bits: u8) -> (r: PTEFlags)
        ensures
            r.bits == bits,
    {
        PTEFlags { bits }
    }

    /// The flag set with no bit.
    pub fn empty() -> (r: PTEFlags)
        ensures
            r.bits == 0,
    {
        PTEFlags { bits: 0 }
    }

    pub fn bits(&self) -> (r: u8)
        ensures
            r == self.bits,
    {
        self.bits
    }

    /// The bits of both sets.
    pub fn union(&self, other: PTEFlags) -> (r: PTEFlags)
        ensures
            r.bits == self.bits | other.bits,
    {
        PTEFlags { bits: self.bits | other.bits }
    }

    /// Whether every bit of `other` is set here.
    pub fn contains(&self, other: PTEFlags) -> (r: bool)
        ensures
            r == (self.bits & other.bits == other.bits),
    {
        self.bits & other.bits == other.bits
    }
}

/// Physical page number held in the entry bits `bits`.
pub open spec fn pte_ppn(bits: u64) -> u64 {
    (bits >> 10u64) & 0xfff_ffff_ffffu64
}

/// Flag byte held in the entry bits `bits`.
pub open spec fn pte_flags(bits: u64) -> u8 {
    (bits & 0xffu64) as u8
}

/// Entry bits that hold physical page `ppn` with flag byte `flags`.
pub open spec fn pte_bits(ppn: u64, flags: u8) -> u64 {
    (ppn << 10u64) | (flags as u64)
}

/// One page-table entry: a physical page number above a flag byte.
#[derive(Clone, Copy, Debug, PartialEq, Eq, Structural)]
pub struct PageTableEntry {
    pub bits: u64,
}

proof fn lemma_pte_fields(ppn: u64, flags: u8)
    requires
        ppn < PPN_LIMIT,
    ensures
        pte_ppn(pte_bits(ppn, flags)) == ppn,
        pte_flags(pte_bits(ppn, flags)) == flags,
{
    let f = flags as u64;
    assert(f < 256);
    assert((((ppn << 10u64) | f) >> 10u64) & 0xfff_ffff_ffffu64 == ppn) by (bit_vector)
        requires
            ppn < 0x1000_0000_0000u64,
            f < 256,
    ;
    assert(((ppn << 10u64) | f) & 0xffu64 == f) by (bit_vector)
        requires
            f < 256,
    ;
}

impl PageTableEntry {
    /// Physical page number of the entry.
    pub open spec fn ppn_spec(&self) -> u64 {
        pte_ppn(self.bits)
    }

    /// Flag byte of the entry.
    pub open spec fn flags_spec(&self) -> u8 {
        pte_flags(self.bits)
    }

    /// Whether the flag byte holds bit `f`.
    pub open spec fn has_flag(&self, f: u8) -> bool {
        self.flags_spec() & f != 0
    }

    /// Whether the entry is valid.
    pub open spec fn valid_spec(&self) -> bool {
        self.has_flag(PTE_V)
    }

    /// The entry that holds `ppn` with flag byte `flags`.
    pub fn new(ppn: PhysPageNum, flags: PTEFlags) -> (r: PageTableEntry)
        requires
            ppn.0 < PPN_LIMIT,
        ensures
            r.bits == pte_bits(ppn.0, flags.bits),
            r.ppn_spec() == ppn.0,
            r.flags_spec() == flags.bits,
    {
        proof {
            lemma_pte_fields(ppn.0, flags.bits);
        }
        PageTableEntry { bits: (ppn.0 << 10u64) | (flags.bits as u64) }
    }

    /// The all-zero, invalid entry.
    pub fn empty() -> (r: PageTableEntry)
        ensures
            r.bits == 0,
            !r.valid_spec(),
    {
        assert(((0u64 & 0xffu64) as u8) & 1u8 == 0) by (bit_vector);
        PageTableEntry { bits: 0 }
    }

    pub fn ppn(&self) -> (r: PhysPageNum)
        ensures
            r.0 == self.ppn_spec(),
    {
        PhysPageNum((self.bits >> 10u64) & 0xfff_ffff_ffffu64)
    }

    pub fn flags(&self) -> (r: PTEFlags)
        ensures
            r.bits == self.flags_spec(),
    {
        PTEFlags { bits: (self.bits & 0xffu64) as u8 }
    }

    pub fn is_valid(&self) -> (r: bool)
        ensures
            r == self.has_flag(PTE_V),
    {
        self.flags().bits & PTE_V != 0
    }

    pub fn readable(&self) -> (r: bool)
        ensures
            r == self.has_flag(PTE_R),
    {
        self.flags().bits & PTE_R != 0
    }

    pub fn writable(&self) -> (r: bool)
        ensures
            r == self.has_flag(PTE_W),
    {
        self.flags().bits & PTE_W != 0
    }

    pub fn executable(&self) -> (r: bool)
        ensures
            r == self.has_flag(PTE_X),
    {
        self.flags().bits & PTE_X != 0
    }

    /// Whether the page is reachable from user mode.
    #[allow(non_snake_case)]
    pub fn PTE_U(&self) -> (r: bool)
        ensures
            r == self.has_flag(PTE_U),
    {
        self.flags().bits & PTE_U != 0
    }
}

/// Index of the leaf entry that translates page `vpn`: its low 27 bits.
pub open spec fn leaf_key(vpn: u64) -> u64 {
    vpn % VPN_LIMIT
}

/// What a translation returns for page `vpn` in the translations `m`.
pub open spec fn translate_spec(m: Map<u64, PageTableEntry>, vpn: u64) -> Option<PageTableEntry> {
    if m.contains_key(leaf_key(vpn)) {
        Some(m[leaf_key(vpn)])
    } else {
        None
    }
}

/// The entry that maps to `ppn` with the flag byte `flags` plus Valid.
pub open spec fn mapped_entry(ppn: u64, flags: u8) -> PageTableEntry {
    PageTableEntry { bits: pte_bits(ppn, flags | PTE_V) }
}

/// How `map(vpn, ppn, flags)` relates the translations before and after,
/// and its result `r`: it succeeds exactly where `vpn` was unmapped, and then
/// adds that one translation; otherwise nothing changes.
pub open spec fn map_post(
    before: Map<u64, PageTableEntry>,
    after: Map<u64, PageTableEntry>,
    vpn: u64,
    ppn: u64,
    flags: u8,
    r: bool,
) -> bool {
    &&& r == !before.contains_key(leaf_key(vpn))
    &&& r ==> after == before.insert(leaf_key(vpn), mapped_entry(ppn, flags))
    &&& !r ==> after == before
}

/// A page mapped with `map(vpn, ppn, flags)` translates to an entry that
/// holds `ppn` and exactly `flags` plus Valid.
pub proof fn lemma_translate_after_map(
    before: Map<u64, PageTableEntry>,
    after: Map<u64, PageTableEntry>,
    vpn: u64,
    ppn: u64,
    flags: u8,
)
    requires
        ppn < PPN_LIMIT,
        map_post(before, after, vpn, ppn, flags, true),
    ensures
        translate_spec(after, vpn) is Some,
        translate_spec(after, vpn).unwrap().ppn_spec() == ppn,
        translate_spec(after, vpn).unwrap().flags_spec() == flags | PTE_V,
        translate_spec(after, vpn).unwrap().valid_spec(),
{
    let fv = flags | PTE_V;
    lemma_pte_fields(ppn, fv);
    assert(fv & 1u8 != 0) by (bit_vector)
        requires
            fv == flags | 1u8,
    ;
}

/// A second `map` of the same page, with no `unmap` between, fails and
/// leaves the first translation, and its physical page, in place.
pub proof fn lemma_no_silent_overwrite(
    t0: Map<u64, PageTableEntry>,
    t1: Map<u64, PageTableEntry>,
    t2: Map<u64, PageTableEntry>,
    vpn: u64,
    ppn1: u64,
    flags1: u8,
    ppn2: u64,
    flags2: u8,
    r2: bool,
)
    requires
        ppn1 < PPN_LIMIT,
        map_post(t0, t1, vpn, ppn1, flags1, true),
        map_post(t1, t2, vpn, ppn2, flags2, r2),
    ensures
        !r2,
        t2 == t1,
        translate_spec(t2, vpn).unwrap().ppn_spec() == ppn1,
{
    lemma_translate_after_map(t0, t1, vpn, ppn1, flags1);
}

/// Key of the last-level table on the walk to leaf key `k`.
pub open spec fn table_key(k: u64) -> u64 {
    k / 512
}

/// Key of the middle-level table on the walk to last-level table key `t`.
pub open spec fn dir_key(t: u64) -> u64 {
    t / 512
}

/// A three-level SV39 page table.
///
/// The root page backs the first level; each valid root entry leads to a
/// middle-level table page, kept under its root index in `dirs`; each valid
/// middle-level entry leads to a last-level table page, kept under the upper
/// 18 bits of the page number in `tables`; `entries` holds the last-level
/// entries under the low 27 bits of the page number. Every table page is
/// backed by a frame that the table owns, except in a borrowed view built
/// from a token, which owns none.
pub struct PageTable {
    root_ppn: PhysPageNum,
    root_frame: Option<FrameTracker>,
    dirs: BTreeMap<u64, FrameTracker>,
    tables: BTreeMap<u64, FrameTracker>,
    entries: BTreeMap<u64, PageTableEntry>,
}

/// A table page of a table whose pages are in `pool` is in `pool`.
pub proof fn lemma_node_in_pool(pt: PageTable, pool: Set<u64>, p: u64)
    requires
        pt.nodes_in_pool(pool),
        pt.is_node(p),
    ensures
        pool.contains(p),
{
}

/// The table pages stay distinct pages in any other pool that holds them all.
pub proof fn lemma_nodes_repool(pt: PageTable, pool: Set<u64>, pool2: Set<u64>)
    requires
        pt.nodes_in_pool(pool),
        forall|p: u64| #[trigger] pt.is_node(p) ==> pool2.contains(p),
    ensures
        pt.nodes_in_pool(pool2),
{
}

proof fn lemma_same_nodes(a: PageTable, b: PageTable)
    requires
        a.dirs@ == b.dirs@,
        a.tables@ == b.tables@,
        a.root_frame == b.root_frame,
    ensures
        forall|p: u64| #[trigger] a.is_node(p) == b.is_node(p),
        forall|pool: Set<u64>| #[trigger] a.nodes_in_pool(pool) == b.nodes_in_pool(pool),
{
    assert forall|p: u64| #[trigger] a.is_node(p) == b.is_node(p) by {}
    assert forall|pool: Set<u64>| #[trigger] a.nodes_in_pool(pool) == b.nodes_in_pool(pool) by {
        if a.nodes_in_pool(pool) {
            assert forall|p: u64| #[trigger] b.is_node(p) implies pool.contains(p) by {
                assert(a.is_node(p));
            }
        }
        if b.nodes_in_pool(pool) {
            assert forall|p: u64| #[trigger] a.is_node(p) implies pool.contains(p) by {
                assert(b.is_node(p));
            }
        }
    }
}

impl PageTable {
    pub closed spec fn wf(&self) -> bool {
        &&& forall|k: u64| #[trigger] self.entries@.contains_key(k) ==> k < VPN_LIMIT
            && self.tables@.contains_key(table_key(k))
        &&& forall|t: u64| #[trigger] self.tables@.contains_key(t) ==> t < 0x4_0000
            && self.dirs@.contains_key(dir_key(t))
        &&& forall|d: u64| #[trigger] self.dirs@.contains_key(d) ==> d < 512
        &&& self.dirs@.dom().finite()
        &&& self.tables@.dom().finite()
        &&& self.entries@.dom().finite()
    }

    /// The translations: the valid last-level entries, by leaf key.
    pub closed spec fn view(&self) -> Map<u64, PageTableEntry> {
        Map::new(
            |k: u64| self.entries@.contains_key(k) && self.entries@[k].valid_spec(),
            |k: u64| self.entries@[k],
        )
    }

    /// Number of frames the table owns: the root and every table page below it.
    pub closed spec fn frame_count(&self) -> nat {
        (if self.root_frame.is_some() { 1nat } else { 0nat }) + self.dirs@.len()
            + self.tables@.len()
    }

    /// Whether the middle-level and last-level table pages on the walk to
    /// page `vpn` exist.
    pub closed spec fn walk_exists(&self, vpn: u64) -> bool {
        &&& self.dirs@.contains_key(dir_key(table_key(leaf_key(vpn))))
        &&& self.tables@.contains_key(table_key(leaf_key(vpn)))
    }

    /// Whether `p` is the page number of a table page the table owns.
    pub closed spec fn is_node(&self, p: u64) -> bool {
        ||| (self.root_frame is Some && self.root_frame.unwrap().ppn.0 == p)
        ||| (exists|d: u64| #[trigger] self.dirs@.contains_key(d) && self.dirs@[d].ppn.0 == p)
        ||| (exists|t: u64| #[trigger] self.tables@.contains_key(t) && self.tables@[t].ppn.0 == p)
    }

    /// Whether the table pages the table owns are distinct pages, each
    /// handed out by a pool whose handed-out pages are `pool`.
    pub closed spec fn nodes_in_pool(&self, pool: Set<u64>) -> bool {
        &&& forall|p: u64| #[trigger] self.is_node(p) ==> pool.contains(p)
        &&& forall|d1: u64, d2: u64| #[trigger] self.dirs@.contains_key(d1) && #[trigger] self.dirs@.contains_key(d2) && d1 != d2
            ==> self.dirs@[d1].ppn.0 != self.dirs@[d2].ppn.0
        &&& forall|t1: u64, t2: u64| #[trigger] self.tables@.contains_key(t1) && #[trigger] self.tables@.contains_key(t2) && t1 != t2
            ==> self.tables@[t1].ppn.0 != self.tables@[t2].ppn.0
        &&& forall|d: u64, t: u64| #[trigger] self.dirs@.contains_key(d) && #[trigger] self.tables@.contains_key(t)
            ==> self.dirs@[d].ppn.0 != self.tables@[t].ppn.0
        &&& self.root_frame is Some ==> forall|d: u64| #[trigger] self.dirs@.contains_key(d) ==> self.dirs@[d].ppn.0 != self.root_frame.unwrap().ppn.0
        &&& self.root_frame is Some ==> forall|t: u64| #[trigger] self.tables@.contains_key(t) ==> self.tables@[t].ppn.0 != self.root_frame.unwrap().ppn.0
    }

    /// Physical page number of the root table page.
    pub closed spec fn root_spec(&self) -> u64 {
        self.root_ppn.0
    }

    /// Whether the table owns its frames (it is not a borrowed view).
    pub closed spec fn owns_root(&self) -> bool {
        self.root_frame.is_some()
    }

    /// A table with one zeroed root page and no translation.
    pub fn new(alloc: &mut StackFrameAllocator) -> (r: PageTable)
        requires
            old(alloc).wf(),
            old(alloc).free_count() >= 1,
        ensures
            r.wf(),
            r@ == Map::<u64, PageTableEntry>::empty(),
            r.owns_root(),
            r.frame_count() == 1,
            final(alloc).wf(),
            final(alloc).free_count() == old(alloc).free_count() - 1,
            !old(alloc).allocated().contains(r.root_spec()),
            final(alloc).allocated() == old(alloc).allocated().insert(r.root_spec()),
            r.nodes_in_pool(final(alloc).allocated()),
            forall|p: u64| #[trigger] r.is_node(p) ==> !old(alloc).allocated().contains(p),
    {
        let frame = alloc.alloc_frame().unwrap();
        let r = PageTable {
            root_ppn: frame.ppn,
            root_frame: Some(frame),
            dirs: BTreeMap::new(),
            tables: BTreeMap::new(),
            entries: BTreeMap::new(),
        };
        assert(r@ =~= Map::<u64, PageTableEntry>::empty());
        r
    }

    /// Creates the missing table pages on the walk to page `vpn` and returns
    /// the leaf entry it reaches.
    pub fn find_pte_create(&mut self, vpn: VirtPageNum, alloc: &mut StackFrameAllocator) -> (r:
        PageTableEntry)
        requires
            old(self).wf(),
            old(alloc).wf(),
            old(alloc).free_count() >= 2,
        ensures
            final(self).wf(),
            final(self)@ == old(self)@,
            final(self).owns_root() == old(self).owns_root(),
            r.valid_spec() == old(self)@.contains_key(leaf_key(vpn.0)),
            r.valid_spec() ==> r == old(self)@[leaf_key(vpn.0)],
            final(alloc).wf(),
            final(alloc).free_count() + final(self).frame_count() == old(alloc).free_count()
                + old(self).frame_count(),
            final(self).frame_count() <= old(self).frame_count() + 2,
            final(self).walk_exists(vpn.0),
            final(self).root_spec() == old(self).root_spec(),
    {
        self.walk_create(vpn, alloc)
    }

    /// Creates the missing table pages on the walk to page `vpn`; returns the
    /// leaf entry it reaches.
    fn walk_create(&mut self, vpn: VirtPageNum, alloc: &mut StackFrameAllocator) -> (r:
        PageTableEntry)
        requires
            old(self).wf(),
            old(alloc).wf(),
            old(alloc).free_count() >= 2,
        ensures
            final(self).wf(),
            final(self)@ == old(self)@,
            final(self).owns_root() == old(self).owns_root(),
            r.valid_spec() == old(self)@.contains_key(leaf_key(vpn.0)),
            r.valid_spec() ==> r == old(self)@[leaf_key(vpn.0)],
            final(alloc).wf(),
            final(alloc).free_count() + final(self).frame_count() == old(alloc).free_count()
                + old(self).frame_count(),
            final(self).frame_count() <= old(self).frame_count() + 2,
            old(alloc).allocated().subset_of(final(alloc).allocated()),
            final(self).tables@.contains_key(table_key(leaf_key(vpn.0))),
            final(self).dirs@.contains_key(dir_key(table_key(leaf_key(vpn.0)))),
            final(self).root_ppn == old(self).root_ppn,
            final(self).entries@ == old(self).entries@,
            old(self).nodes_in_pool(old(alloc).allocated()) ==> final(self).nodes_in_pool(final(alloc).allocated()),
            forall|p: u64| #[trigger] final(self).is_node(p) ==> old(self).is_node(p) || !old(alloc).allocated().contains(p),
            forall|p: u64| #[trigger] old(self).is_node(p) ==> final(self).is_node(p),
    {
        let k = vpn.0 % VPN_LIMIT;
        let t = k / 512;
        let d = t / 512;
        if !self.dirs.contains_key(&d) {
            let ghost s0 = *self;
            let ghost a0 = *alloc;
            let frame = alloc.alloc_frame().unwrap();
            let ghost f = frame.ppn.0;
            self.dirs.insert(d, frame);
            proof {
                assert(self.tables@ == s0.tables@);
                assert(self.root_frame == s0.root_frame);
                assert forall|p: u64| #[trigger] self.is_node(p) == (s0.is_node(p) || p == f) by {
                    if exists|x: u64| #[trigger] s0.tables@.contains_key(x) && s0.tables@[x].ppn.0 == p {
                        let x = choose|x: u64| #[trigger] s0.tables@.contains_key(x) && s0.tables@[x].ppn.0 == p;
                        assert(self.tables@.contains_key(x));
                    }
                    if exists|x: u64| #[trigger] self.tables@.contains_key(x) && self.tables@[x].ppn.0 == p {
                        let x = choose|x: u64| #[trigger] self.tables@.contains_key(x) && self.tables@[x].ppn.0 == p;
                        assert(s0.tables@.contains_key(x));
                    }
                    if p == f {
                        assert(self.dirs@.contains_key(d) && self.dirs@[d].ppn.0 == f);
                    }
                    if exists|x: u64| #[trigger] s0.dirs@.contains_key(x) && s0.dirs@[x].ppn.0 == p {
                        let x = choose|x: u64| #[trigger] s0.dirs@.contains_key(x) && s0.dirs@[x].ppn.0 == p;
                        assert(self.dirs@.contains_key(x) && self.dirs@[x].ppn.0 == p);
                    }
                    if exists|x: u64| #[trigger] self.dirs@.contains_key(x) && self.dirs@[x].ppn.0 == p {
                        let x = choose|x: u64| #[trigger] self.dirs@.contains_key(x) && self.dirs@[x].ppn.0 == p;
                        if x != d {
                            assert(s0.dirs@.contains_key(x) && s0.dirs@[x].ppn.0 == p);
                        }
                    }
                }
                if s0.nodes_in_pool(a0.allocated()) {
                    assert forall|x: u64| #[trigger] s0.dirs@.contains_key(x) implies s0.dirs@[x].ppn.0 != f by {
                        assert(s0.is_node(s0.dirs@[x].ppn.0));
                    }
                    assert forall|x: u64| #[trigger] s0.tables@.contains_key(x) implies s0.tables@[x].ppn.0 != f by {
                        assert(s0.is_node(s0.tables@[x].ppn.0));
                    }
                    assert(s0.root_frame is Some ==> s0.is_node(s0.root_frame.unwrap().ppn.0));
                    assert(self.nodes_in_pool(alloc.allocated()));
                }
            }
        }
        if !self.tables.contains_key(&t) {
            let ghost s0 = *self;
            let ghost a0 = *alloc;
            let frame = alloc.alloc_frame().unwrap();
            let ghost f = frame.ppn.0;
            self.tables.insert(t, frame);
            proof {
                assert(self.dirs@ == s0.dirs@);
                assert(self.root_frame == s0.root_frame);
                assert forall|p: u64| #[trigger] self.is_node(p) == (s0.is_node(p) || p == f) by {
                    if exists|x: u64| #[trigger] self.dirs@.contains_key(x) && self.dirs@[x].ppn.0 == p {
                        let x = choose|x: u64| #[trigger] self.dirs@.contains_key(x) && self.dirs@[x].ppn.0 == p;
                        assert(s0.dirs@.contains_key(x));
                    }
                    if p == f {
                        assert(self.tables@.contains_key(t) && self.tables@[t].ppn.0 == f);
                    }
                    if exists|x: u64| #[trigger] s0.tables@.contains_key(x) && s0.tables@[x].ppn.0 == p {
                        let x = choose|x: u64| #[trigger] s0.tables@.contains_key(x) && s0.tables@[x].ppn.0 == p;
                        assert(self.tables@.contains_key(x) && self.tables@[x].ppn.0 == p);
                    }
                    if exists|x: u64| #[trigger] self.tables@.contains_key(x) && self.tables@[x].ppn.0 == p {
                        let x = choose|x: u64| #[trigger] self.tables@.contains_key(x) && self.tables@[x].ppn.0 == p;
                        if x != t {
                            assert(s0.tables@.contains_key(x) && s0.tables@[x].ppn.0 == p);
                        }
                    }
                    if exists|x: u64| #[trigger] s0.dirs@.contains_key(x) && s0.dirs@[x].ppn.0 == p {
                        let x = choose|x: u64| #[trigger] s0.dirs@.contains_key(x) && s0.dirs@[x].ppn.0 == p;
                        assert(self.dirs@.contains_key(x));
                    }
                }
                if s0.nodes_in_pool(a0.allocated()) {
                    assert forall|x: u64| #[trigger] s0.dirs@.contains_key(x) implies s0.dirs@[x].ppn.0 != f by {
                        assert(s0.is_node(s0.dirs@[x].ppn.0));
                    }
                    assert forall|x: u64| #[trigger] s0.tables@.contains_key(x) implies s0.tables@[x].ppn.0 != f by {
                        assert(s0.is_node(s0.tables@[x].ppn.0));
                    }
                    assert(s0.root_frame is Some ==> s0.is_node(s0.root_frame.unwrap().ppn.0));
                    assert(self.nodes_in_pool(alloc.allocated()));
                }
            }
        }
        proof {
            assert(self@ =~= old(self)@);
        }
        match self.entries.get(&k) {
            Some(e) => *e,
            None => PageTableEntry::empty(),
        }
    }

    /// The leaf entry that the walk to page `vpn` reaches without creating
    /// anything, valid or not; `None` where a table page on the way is missing.
    fn find_pte(&self, vpn: VirtPageNum) -> (r: Option<PageTableEntry>)
        requires
            self.wf(),
        ensures
            r.is_some() && r.unwrap().valid_spec() <==> self@.contains_key(leaf_key(vpn.0)),
            r.is_some() && r.unwrap().valid_spec() ==> r.unwrap() == self@[leaf_key(vpn.0)],
    {
        let k = vpn.0 % VPN_LIMIT;
        let t = k / 512;
        let d = t / 512;
        if !self.dirs.contains_key(&d) {
            return None;
        }
        if !self.tables.contains_key(&t) {
            return None;
        }
        match self.entries.get(&k) {
            Some(e) => Some(*e),
            None => None,
        }
    }

    /// Installs the translation of page `vpn` to physical page `ppn` with the
    /// flags `flags` plus Valid. Fails, changing nothing, where page `vpn` is
    /// already mapped; only then may the pool hold fewer than two frames.
    pub fn map(&mut self, vpn: VirtPageNum, ppn: PhysPageNum, flags: PTEFlags, alloc: &mut StackFrameAllocator) -> (r: bool)
        requires
            old(self).wf(),
            ppn.0 < PPN_LIMIT,
            old(alloc).wf(),
            old(alloc).free_count() >= 2 || old(self)@.contains_key(leaf_key(vpn.0)),
        ensures
            final(self).wf(),
            final(self).owns_root() == old(self).owns_root(),
            map_post(old(self)@, final(self)@, vpn.0, ppn.0, flags.bits, r),
            !r ==> *final(self) == *old(self) && *final(alloc) == *old(alloc),
            old(self).nodes_in_pool(old(alloc).allocated()) ==> final(self).nodes_in_pool(final(alloc).allocated()),
            forall|p: u64| #[trigger] final(self).is_node(p) ==> old(self).is_node(p) || !old(alloc).allocated().contains(p),
            forall|p: u64| #[trigger] old(self).is_node(p) ==> final(self).is_node(p),
            final(self).root_spec() == old(self).root_spec(),
            final(self).token_spec() == old(self).token_spec(),
            final(alloc).wf(),
            final(alloc).free_count() + final(self).frame_count() == old(alloc).free_count()
                + old(self).frame_count(),
            final(self).frame_count() <= old(self).frame_count() + 2,
            old(alloc).allocated().subset_of(final(alloc).allocated()),
    {
        match self.find_pte(vpn) {
            Some(e) => {
                if e.is_valid() {
                    return false;
                }
            },
            None => {},
        }
        self.walk_create(vpn, alloc);
        let k = vpn.0 % VPN_LIMIT;
        let e = PageTableEntry::new(ppn, PTEFlags { bits: flags.bits | PTE_V });
        let ghost mid = self@;
        let ghost w = *self;
        self.entries.insert(k, e);
        proof {
            lemma_same_nodes(*self, w);
            let fb = flags.bits;
            let fv = fb | PTE_V;
            assert(fv & 1u8 != 0) by (bit_vector)
                requires
                    fv == fb | 1u8,
            ;
            assert(e.valid_spec());
            assert(self@ =~= mid.insert(k, e));
        }
        true
    }

    /// Clears the translation of page `vpn`. Fails, changing nothing, where
    /// page `vpn` is not mapped.
    pub fn unmap(&mut self, vpn: VirtPageNum) -> (r: bool)
        requires
            old(self).wf(),
        ensures
            final(self).wf(),
            final(self).owns_root() == old(self).owns_root(),
            final(self).frame_count() == old(self).frame_count(),
            r == old(self)@.contains_key(leaf_key(vpn.0)),
            final(self)@ == old(self)@.remove(leaf_key(vpn.0)),
            final(self).root_spec() == old(self).root_spec(),
            forall|p: u64| #[trigger] final(self).is_node(p) == old(self).is_node(p),
            forall|pool: Set<u64>| #[trigger] old(self).nodes_in_pool(pool) ==> final(self).nodes_in_pool(pool),
            final(self).token_spec() == old(self).token_spec(),
    {
        match self.find_pte(vpn) {
            Some(pte) => {
                if !pte.is_valid() {
                    proof {
                        assert(self@ =~= old(self)@.remove(leaf_key(vpn.0)));
                    }
                    return false;
                }
            },
            None => {
                proof {
                    assert(self@ =~= old(self)@.remove(leaf_key(vpn.0)));
                }
                return false;
            },
        }
        let k = vpn.0 % VPN_LIMIT;
        self.entries.insert(k, PageTableEntry::empty());
        proof {
            assert(self@ =~= old(self)@.remove(k));
            lemma_same_nodes(*self, *old(self));
        }
        true
    }

    /// The valid leaf entry for page `vpn`, or `None` where the page is not mapped.
    pub fn translate(&self, vpn: VirtPageNum) -> (r: Option<PageTableEntry>)
        requires
            self.wf(),
        ensures
            r == translate_spec(self@, vpn.0),
            r is Some ==> r.unwrap().valid_spec(),
    {
        match self.find_pte(vpn) {
            Some(pte) => {
                if pte.is_valid() {
                    Some(pte)
                } else {
                    None
                }
            },
            None => None,
        }
    }

    /// The value for the translation-base register, as a spec.
    pub closed spec fn token_spec(&self) -> u64 {
        (8u64 << 60u64) | self.root_ppn.0
    }

    /// The value for the translation-base register: paging mode 8 (SV39) in
    /// the top four bits above the root page number.
    pub fn token(&self) -> (r: u64)
        ensures
            r == self.token_spec(),
            r == (8u64 << 60u64) | self.root_spec(),
    {
        (8u64 << 60u64) | self.root_ppn.0
    }
}

/// Whether `chunks` is how the bytes `[ptr, ptr + len)` lie in physical
/// pages under the translations `m`: one chunk per page touched, in order,
/// each naming the physical page and the byte range `[from, to)` within it.
pub open spec fn byte_chunks(m: Map<u64, PageTableEntry>, ptr: u64, len: u64, chunks: Seq<(PhysPageNum, u64, u64)>) -> bool {
    let first = ptr / 4096;
    let end = ptr + len;
    &&& len == 0 ==> chunks.len() == 0
    &&& len > 0 ==> chunks.len() == (end - 1) / 4096 - first + 1
    &&& forall|k: int| 0 <= k < chunks.len() ==> {
        let vpn = (first + k) as u64;
        let c = #[trigger] chunks[k];
        &&& translate_spec(m, vpn) is Some
        &&& c.0.0 == translate_spec(m, vpn).unwrap().ppn_spec()
        &&& c.1 == if k == 0 { ptr % 4096 } else { 0 }
        &&& c.2 == if vpn == (end - 1) / 4096 { ((end - 1) % 4096 + 1) as u64 } else { 4096 }
    }
}

/// Where the bytes `[ptr, ptr + len)` of the address space of this table lie
/// in physical memory: one chunk per page touched, with its physical page
/// and the byte range within it. `None` where some page touched is not
/// mapped.
pub fn translated_byte_buffer(pt: &PageTable, ptr: u64, len: u64) -> (r: Option<Vec<(PhysPageNum, u64, u64)>>)
    requires
        pt.wf(),
        ptr + len <= u64::MAX,
    ensures
        r is Some <==> forall|vpn: u64| len > 0 && ptr / 4096 <= vpn <= (ptr + len - 1) / 4096 ==> #[trigger] translate_spec(pt@, vpn) is Some,
        r is Some ==> byte_chunks(pt@, ptr, len, r.unwrap()@),
{
    let end = ptr + len;
    let mut v: Vec<(PhysPageNum, u64, u64)> = Vec::new();
    if len == 0 {
        return Some(v);
    }
    let first = ptr / 4096;
    let last = (end - 1) / 4096;
    let mut vpn = first;
    while vpn <= last
        invariant
            pt.wf(),
            first == ptr / 4096,
            last == (end - 1) / 4096,
            end == ptr + len,
            len > 0,
            first <= vpn <= last + 1,
            last < u64::MAX,
            v@.len() == vpn - first,
            forall|w: u64| first <= w < vpn ==> #[trigger] translate_spec(pt@, w) is Some,
            forall|k: int| 0 <= k < v@.len() ==> {
                let w = (first + k) as u64;
                let c = #[trigger] v@[k];
                &&& c.0.0 == translate_spec(pt@, w).unwrap().ppn_spec()
                &&& c.1 == if k == 0 { ptr % 4096 } else { 0 }
                &&& c.2 == if w == last { ((end - 1) % 4096 + 1) as u64 } else { 4096 }
            },
        decreases last + 1 - vpn,
    {
        let e = match pt.translate(VirtPageNum(vpn)) {
            Some(e) => e,
            None => {
                assert(translate_spec(pt@, vpn) is None);
                return None;
            },
        };
        let from: u64 = if vpn == first { ptr % 4096 } else { 0 };
        let to: u64 = if vpn == last { (end - 1) % 4096 + 1 } else { 4096 };
        v.push((e.ppn(), from, to));
        vpn = vpn + 1;
    }
    proof {
        assert forall|vpn: u64| len > 0 && ptr / 4096 <= vpn <= (ptr + len - 1) / 4096 implies #[trigger] translate_spec(pt@, vpn) is Some by {
            assert(first <= vpn < last + 1);
        }
    }
    Some(v)
}

/// Whether page `vpn` is mapped, writable and reachable from user mode in
/// the translations `m`.
pub open spec fn user_writable(m: Map<u64, PageTableEntry>, vpn: u64) -> bool {
    let e = translate_spec(m, vpn);
    e is Some && e.unwrap().has_flag(PTE_W) && e.unwrap().has_flag(PTE_U)
}

/// Whether a user buffer of `len` bytes at `buf` may be handed to `write`:
/// every page from the one holding `buf` through `len / PAGE_SIZE` pages
/// after it is mapped, writable and reachable from user mode.
pub fn user_buffer_writable(pt: &PageTable, buf: u64, len: u64) -> (r: bool)
    requires
        pt.wf(),
    ensures
        r == forall|k: u64| 0 <= k <= len / 4096 ==> #[trigger] user_writable(pt@, (buf / 4096 + k) as u64),
{
    let first = buf / 4096;
    let pages = len / 4096;
    let mut k: u64 = 0;
    while k <= pages
        invariant
            pt.wf(),
            first == buf / 4096,
            pages == len / 4096,
            k <= pages + 1,
            forall|q: u64| 0 <= q < k ==> #[trigger] user_writable(pt@, (first + q) as u64),
        decreases pages + 1 - k,
    {
        let ok = match pt.translate(VirtPageNum(first + k)) {
            Some(e) => e.writable() && e.PTE_U(),
            None => false,
        };
        if !ok {
            assert(!user_writable(pt@, (first + k) as u64));
            return false;
        }
        if k == pages {
            return true;
        }
        k = k + 1;
    }
    true
}

} // verus!
