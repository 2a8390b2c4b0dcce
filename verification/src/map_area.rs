//! A mapping area: a contiguous, non-empty range of virtual pages with one
//! mapping policy and one permission set. A framed area owns one pool frame
//! per page; identity and MMIO areas map each page onto itself.

use vstd::prelude::*;
use crate::config::{PAGE_SIZE, TRAMPOLINE_VPN};
use crate::frame_allocator::FrameAllocator;
use crate::page_table::{PageTable, PageTableEntry, PTE_V};

verus! {

/// Readable permission bit.
pub const PERM_R: u8 = 2;
/// Writable permission bit.
pub const PERM_W: u8 = 4;
/// Executable permission bit.
pub const PERM_X: u8 = 8;
/// User-accessible permission bit.
pub const PERM_U: u8 = 16;

/// Mapping policy of an area.
#[derive(Clone, Copy, PartialEq, Eq, Structural, Debug)]
pub enum MapType {
    /// Page maps onto the equal physical page; kernel sections and the
    /// physical window.
    Identical,
    /// Each page is backed by an owned pool frame.
    Framed,
    /// Identity-mapped device registers, kept apart from `Identical` for
    /// bookkeeping.
    Mmio,
}

/// Permission bits of an area, laid out exactly as the leaf-entry flag bits.
#[derive(Clone, Copy, PartialEq, Eq, Structural, Debug)]
pub struct MapPermission {
    pub bits: u8,
}

/// Whether `bits` holds only the four permission bits.
pub open spec fn valid_perm_bits(bits: u8) -> bool {
    bits & !(PERM_R | PERM_W | PERM_X | PERM_U) == 0
}

impl MapPermission {
    /// Accept exactly the four permission bits.
    pub fn from_bits(bits: u8) -> (r: Option<MapPermission>)
        ensures
            r == if valid_perm_bits(bits) { Some(MapPermission { bits }) } else { None::<MapPermission> },
    {
        if bits & !(PERM_R | PERM_W | PERM_X | PERM_U) == 0 {
            Some(MapPermission { bits })
        } else {
            None
        }
    }
}

/// First page of the byte address `va`.
pub open spec fn floor_vpn(va: usize) -> usize {
    va / PAGE_SIZE
}

/// First page boundary at or above the byte address `va`.
pub open spec fn ceil_vpn(va: usize) -> int {
    if va % PAGE_SIZE == 0 { (va / PAGE_SIZE) as int } else { va / PAGE_SIZE + 1 }
}

/// A contiguous virtual page range with one policy and permission set.
pub struct MapArea {
    pub start_vpn: usize,
    pub end_vpn: usize,
    pub map_type: MapType,
    pub map_perm: MapPermission,
    /// For a framed area, slot `vpn - start_vpn` holds the owned frame.
    pub data_frames: Vec<Option<usize>>,
}

impl MapArea {
    pub open spec fn is_framed(&self) -> bool {
        self.map_type is Framed
    }

    /// Whether `vpn` lies in the area's range.
    pub open spec fn contains(&self, vpn: usize) -> bool {
        self.start_vpn <= vpn < self.end_vpn
    }

    /// The frame slot of `vpn`.
    pub open spec fn frame_at(&self, vpn: usize) -> Option<usize> {
        self.data_frames@[vpn - self.start_vpn]
    }

    /// The physical page `vpn` maps to under this area's policy.
    pub open spec fn ppn_for(&self, vpn: usize) -> usize {
        if self.is_framed() { self.frame_at(vpn)->0 } else { vpn }
    }

    /// The leaf entry this area installs for `vpn`.
    pub open spec fn pte_for(&self, vpn: usize) -> PageTableEntry {
        PageTableEntry { ppn: self.ppn_for(vpn), flags: self.map_perm.bits | PTE_V }
    }

    /// Non-empty page range below the trampoline, sound permission bits, and
    /// a frame slot per page exactly when framed.
    pub open spec fn wf_shape(&self) -> bool {
        &&& self.start_vpn < self.end_vpn <= TRAMPOLINE_VPN
        &&& valid_perm_bits(self.map_perm.bits)
        &&& self.data_frames@.len() == if self.is_framed() { self.end_vpn - self.start_vpn } else { 0int }
    }

    /// No page is backed yet.
    pub open spec fn unmapped(&self) -> bool {
        forall|i: int| 0 <= i < self.data_frames@.len() ==> self.data_frames@[i] is None
    }

    /// Every page of a framed area is backed.
    pub open spec fn fully_mapped(&self) -> bool {
        self.is_framed() ==> forall|vpn: usize|
            self.contains(vpn) ==> (#[trigger] self.frame_at(vpn)) is Some
    }

    /// Every backing frame is currently allocated in the pool.
    pub open spec fn frames_in(&self, fa: FrameAllocator) -> bool {
        self.is_framed() ==> forall|vpn: usize|
            self.contains(vpn) && (#[trigger] self.frame_at(vpn)) is Some
                ==> fa.allocated(self.frame_at(vpn)->0)
    }

    /// Distinct pages are backed by distinct frames.
    pub open spec fn frames_injective(&self) -> bool {
        self.is_framed() ==> forall|v1: usize, v2: usize|
            self.contains(v1) && self.contains(v2) && v1 != v2
                && (#[trigger] self.frame_at(v1)) is Some && (#[trigger] self.frame_at(v2)) is Some
                ==> self.frame_at(v1)->0 != self.frame_at(v2)->0
    }

    /// Whether `ppn` backs some page of this area.
    pub open spec fn owns_frame(&self, ppn: usize) -> bool {
        self.is_framed() && exists|vpn: usize|
            self.contains(vpn) && (#[trigger] self.frame_at(vpn)) == Some(ppn)
    }

    /// The table maps every page in `[lo, hi)` to this area's entry.
    pub open spec fn pt_maps_prefix(&self, pt: Map<usize, PageTableEntry>, lo: usize, hi: int) -> bool {
        forall|w: usize| lo <= w < hi ==>
            #[trigger] pt.contains_key(w) && pt[w] == self.pte_for(w)
    }

    /// Frames not owned by this area keep their allocation and bytes
    /// between the two pool states.
    pub open spec fn preserves_outside_frames(&self, fa0: FrameAllocator, fa1: FrameAllocator) -> bool {
        forall|q: usize| fa0.allocated(q) && !self.owns_frame(q)
            ==> #[trigger] fa1.allocated(q) && fa1.page(q) == fa0.page(q)
    }

    /// Same range, policy and permissions.
    pub open spec fn same_shape(&self, other: &MapArea) -> bool {
        &&& self.start_vpn == other.start_vpn
        &&& self.end_vpn == other.end_vpn
        &&& self.map_type == other.map_type
        &&& self.map_perm == other.map_perm
    }

    /// A fresh, unbacked area over `[floor(start_va), ceil(end_va))`.
    pub fn new(start_va: usize, end_va: usize, map_type: MapType, map_perm: MapPermission) -> (area: Self)
        requires
            start_va < end_va <= TRAMPOLINE_VPN * PAGE_SIZE,
            valid_perm_bits(map_perm.bits),
        ensures
            area.start_vpn == floor_vpn(start_va),
            area.end_vpn == ceil_vpn(end_va),
            area.map_type == map_type,
            area.map_perm == map_perm,
            area.wf_shape(),
            area.unmapped(),
    {
        let start_vpn = start_va / PAGE_SIZE;
        let end_vpn = if end_va % PAGE_SIZE == 0 { end_va / PAGE_SIZE } else { end_va / PAGE_SIZE + 1 };
        proof {
            assert(start_vpn < end_vpn) by {
                assert(start_va <= end_va - 1);
                assert(start_va / PAGE_SIZE <= (end_va - 1) as usize / PAGE_SIZE) by {
                    vstd::arithmetic::div_mod::lemma_div_is_ordered(
                        start_va as int, end_va - 1, PAGE_SIZE as int);
                }
                if end_va % PAGE_SIZE == 0 {
                    assert((end_va - 1) as usize / PAGE_SIZE < end_va / PAGE_SIZE) by {
                        vstd::arithmetic::div_mod::lemma_fundamental_div_mod(end_va as int, PAGE_SIZE as int);
                        vstd::arithmetic::div_mod::lemma_fundamental_div_mod(end_va - 1, PAGE_SIZE as int);
                    }
                } else {
                    assert((end_va - 1) as usize / PAGE_SIZE <= end_va / PAGE_SIZE) by {
                        vstd::arithmetic::div_mod::lemma_div_is_ordered(end_va - 1, end_va as int, PAGE_SIZE as int);
                    }
                }
            }
            assert(end_vpn <= TRAMPOLINE_VPN) by {
                vstd::arithmetic::div_mod::lemma_div_is_ordered(
                    end_va as int, TRAMPOLINE_VPN * PAGE_SIZE, PAGE_SIZE as int);
                vstd::arithmetic::div_mod::lemma_div_multiples_vanish(
                    TRAMPOLINE_VPN as int, PAGE_SIZE as int);
                if end_va % PAGE_SIZE != 0 {
                    vstd::arithmetic::div_mod::lemma_fundamental_div_mod(end_va as int, PAGE_SIZE as int);
                }
            }
        }
        let mut data_frames: Vec<Option<usize>> = Vec::new();
        if let MapType::Framed = map_type {
            let n = end_vpn - start_vpn;
            while data_frames.len() < n
                invariant
                    data_frames@.len() <= n,
                    forall|i: int| 0 <= i < data_frames@.len() ==> data_frames@[i] is None,
                decreases n - data_frames@.len(),
            {
                data_frames.push(None);
            }
        }
        MapArea { start_vpn, end_vpn, map_type, map_perm, data_frames }
    }

    /// An unbacked copy of another area: range, policy and permissions only.
    pub fn from_another(another: &MapArea) -> (area: Self)
        requires
            another.wf_shape(),
        ensures
            area.same_shape(another),
            area.wf_shape(),
            area.unmapped(),
    {
        let mut data_frames: Vec<Option<usize>> = Vec::new();
        if let MapType::Framed = another.map_type {
            let n = another.end_vpn - another.start_vpn;
            while data_frames.len() < n
                invariant
                    data_frames@.len() <= n,
                    forall|i: int| 0 <= i < data_frames@.len() ==> data_frames@[i] is None,
                decreases n - data_frames@.len(),
            {
                data_frames.push(None);
            }
        }
        MapArea {
            start_vpn: another.start_vpn,
            end_vpn: another.end_vpn,
            map_type: another.map_type,
            map_perm: another.map_perm,
            data_frames,
        }
    }

    /// Back one page and install its leaf entry.
    pub fn map_one(&mut self, page_table: &mut PageTable, fa: &mut FrameAllocator, vpn: usize)
        requires
            old(self).wf_shape(),
            old(self).contains(vpn),
            old(self).is_framed() ==> old(self).frame_at(vpn) is None,
            old(page_table).wf(),
            !old(page_table)@.contains_key(vpn),
            old(fa).wf(),
            old(self).is_framed() ==> old(fa).has_room(1),
        ensures
            final(self).wf_shape(),
            final(self).same_shape(old(self)),
            final(page_table).wf(),
            final(page_table).root_ppn == old(page_table).root_ppn,
            final(page_table)@ == old(page_table)@.insert(vpn, final(self).pte_for(vpn)),
            final(fa).wf(),
            if old(self).is_framed() {
                final(self).data_frames@
                    == old(self).data_frames@.update(vpn - old(self).start_vpn, final(self).frame_at(vpn))
                && final(self).frame_at(vpn) is Some
                && !old(fa).allocated(final(self).frame_at(vpn)->0)
                && final(fa).allocated(final(self).frame_at(vpn)->0)
                && final(fa).page(final(self).frame_at(vpn)->0) == Seq::new(PAGE_SIZE as nat, |i: int| 0u8)
                && final(fa).count() == old(fa).count() + 1
                && final(fa).slot_count() == old(fa).slot_count() + 1
                && forall|q: usize| q != final(self).frame_at(vpn)->0 ==>
                    (final(fa).allocated(q) == old(fa).allocated(q)
                     && (old(fa).allocated(q) ==> final(fa).page(q) == old(fa).page(q)))
            } else {
                *final(self) == *old(self) && *final(fa) == *old(fa)
            },
    {
        match self.map_type {
            MapType::Framed => {
                let ppn = fa.frame_alloc();
                self.data_frames.set(vpn - self.start_vpn, Some(ppn));
                page_table.map(vpn, ppn, self.map_perm.bits);
            }
            _ => {
                page_table.map(vpn, vpn, self.map_perm.bits);
            }
        }
    }

    /// Release one page's frame, if any, and clear its leaf entry.
    pub fn unmap_one(&mut self, page_table: &mut PageTable, fa: &mut FrameAllocator, vpn: usize)
        requires
            old(self).wf_shape(),
            old(self).contains(vpn),
            old(page_table).wf(),
            old(page_table)@.contains_key(vpn),
            old(fa).wf(),
            old(self).is_framed() && old(self).frame_at(vpn) is Some
                ==> old(fa).allocated(old(self).frame_at(vpn)->0),
        ensures
            final(self).wf_shape(),
            final(self).same_shape(old(self)),
            final(page_table).wf(),
            final(page_table).root_ppn == old(page_table).root_ppn,
            final(page_table)@ == old(page_table)@.remove(vpn),
            final(fa).wf(),
            if old(self).is_framed() {
                final(self).data_frames@
                    == old(self).data_frames@.update(vpn - old(self).start_vpn, None::<usize>)
                && (if old(self).frame_at(vpn) is Some {
                    !final(fa).allocated(old(self).frame_at(vpn)->0)
                    && final(fa).count() == old(fa).count() - 1
                    && final(fa).slot_count() == old(fa).slot_count()
                    && forall|q: usize| q != old(self).frame_at(vpn)->0 ==>
                        (final(fa).allocated(q) == old(fa).allocated(q)
                         && (old(fa).allocated(q) ==> final(fa).page(q) == old(fa).page(q)))
                } else {
                    *final(fa) == *old(fa)
                })
            } else {
                *final(self) == *old(self) && *final(fa) == *old(fa)
            },
    {
        if let MapType::Framed = self.map_type {
            let idx = vpn - self.start_vpn;
            match self.data_frames[idx] {
                Some(ppn) => {
                    fa.frame_dealloc(ppn);
                }
                None => {}
            }
            self.data_frames.set(idx, None);
            proof {
                if old(self).frame_at(vpn) is None {
                    assert(self.data_frames@ =~= old(self).data_frames@.update(
                        vpn - old(self).start_vpn, None::<usize>));
                }
            }
        }
        page_table.unmap(vpn);
    }

    /// Back every page of the range and install its leaf entries.
    #[verifier::rlimit(60)]
    #[verifier::spinoff_prover]
    pub fn map(&mut self, page_table: &mut PageTable, fa: &mut FrameAllocator)
        requires
            old(self).wf_shape(),
            old(self).unmapped(),
            old(page_table).wf(),
            forall|vpn: usize| old(self).contains(vpn) ==> !old(page_table)@.contains_key(vpn),
            old(fa).wf(),
            old(fa).has_room(
                if old(self).is_framed() { old(self).end_vpn - old(self).start_vpn } else { 0int }),
        ensures
            final(self).wf_shape(),
            final(self).same_shape(old(self)),
            final(self).fully_mapped(),
            final(self).frames_in(*final(fa)),
            final(self).frames_injective(),
            final(page_table).wf(),
            final(page_table).root_ppn == old(page_table).root_ppn,
            forall|k: usize| !old(self).contains(k) ==>
                (#[trigger] final(page_table)@.contains_key(k) == old(page_table)@.contains_key(k)
                 && (old(page_table)@.contains_key(k) ==> final(page_table)@[k] == old(page_table)@[k])),
            final(self).pt_maps_prefix(final(page_table)@, final(self).start_vpn, final(self).end_vpn as int),
            forall|vpn: usize| #[trigger] old(self).contains(vpn) ==>
                final(page_table)@.contains_key(vpn)
                && final(page_table)@[vpn] == final(self).pte_for(vpn),
            final(fa).wf(),
            final(self).is_framed() ==> forall|vpn: usize| #[trigger] old(self).contains(vpn) ==>
                !old(fa).allocated(final(self).frame_at(vpn)->0)
                && final(fa).allocated(final(self).frame_at(vpn)->0)
                && final(fa).page(final(self).frame_at(vpn)->0) == Seq::new(PAGE_SIZE as nat, |i: int| 0u8),
            forall|q: usize| #[trigger] old(fa).allocated(q) ==>
                final(fa).allocated(q) && final(fa).page(q) == old(fa).page(q),
            final(fa).count() == old(fa).count()
                + if old(self).is_framed() { old(self).end_vpn - old(self).start_vpn } else { 0int },
            final(fa).slot_count() == old(fa).slot_count()
                + if old(self).is_framed() { old(self).end_vpn - old(self).start_vpn } else { 0int },
            !old(self).is_framed() ==> *final(fa) == *old(fa) && *final(self) == *old(self),
    {
        let ghost zero_page = Seq::new(PAGE_SIZE as nat, |i: int| 0u8);
        let mut vpn = self.start_vpn;
        while vpn < self.end_vpn
            invariant
                self.wf_shape(),
                self.same_shape(old(self)),
                old(self).start_vpn <= vpn <= self.end_vpn,
                page_table.wf(),
                page_table.root_ppn == old(page_table).root_ppn,
                fa.wf(),
                fa.has_room(if self.is_framed() { self.end_vpn - vpn } else { 0int }),
                zero_page == Seq::new(PAGE_SIZE as nat, |i: int| 0u8),
                forall|vpn: usize| old(self).contains(vpn) ==> !old(page_table)@.contains_key(vpn),
                fa.count() == old(fa).count()
                    + if self.is_framed() { vpn - self.start_vpn } else { 0int },
                fa.slot_count() == old(fa).slot_count()
                    + if self.is_framed() { vpn - self.start_vpn } else { 0int },
                self.is_framed() ==> forall|w: usize| self.start_vpn <= w < vpn ==>
                    (#[trigger] self.frame_at(w)) is Some
                    && fa.allocated(self.frame_at(w)->0)
                    && !old(fa).allocated(self.frame_at(w)->0)
                    && fa.page(self.frame_at(w)->0) == zero_page,
                self.is_framed() ==> forall|w: usize| vpn <= w < self.end_vpn ==>
                    (#[trigger] self.frame_at(w)) is None,
                self.is_framed() ==> forall|v1: usize, v2: usize|
                    self.start_vpn <= v1 < vpn && self.start_vpn <= v2 < vpn && v1 != v2
                        ==> (#[trigger] self.frame_at(v1))->0 != (#[trigger] self.frame_at(v2))->0,
                forall|k: usize| !(self.start_vpn <= k < vpn) ==>
                    (#[trigger] page_table@.contains_key(k) == old(page_table)@.contains_key(k)
                     && (old(page_table)@.contains_key(k) ==> page_table@[k] == old(page_table)@[k])),
                self.pt_maps_prefix(page_table@, self.start_vpn, vpn as int),
                forall|q: usize| #[trigger] old(fa).allocated(q) ==>
                    fa.allocated(q) && fa.page(q) == old(fa).page(q),
                !self.is_framed() ==> *fa == *old(fa) && *self == *old(self),
            decreases self.end_vpn - vpn,
        {
            let ghost prev_self = *self;
            let ghost prev_pt = *page_table;
            let ghost prev_fa = *fa;
            proof {
                assert(page_table@.contains_key(vpn) == old(page_table)@.contains_key(vpn));
                assert(old(self).contains(vpn));
                assert(!page_table@.contains_key(vpn));
            }
            self.map_one(page_table, fa, vpn);
            proof {
                assert(prev_self.pt_maps_prefix(prev_pt@, prev_self.start_vpn, vpn as int));
                assert forall|w: usize| self.start_vpn <= w < vpn + 1
                    implies #[trigger] page_table@.contains_key(w) && page_table@[w] == self.pte_for(w) by {
                    if w < vpn {
                        assert(prev_pt@.contains_key(w) && prev_pt@[w] == prev_self.pte_for(w));
                        if self.is_framed() {
                            assert(self.frame_at(w) == prev_self.frame_at(w));
                        }
                    }
                }
                assert(self.pt_maps_prefix(page_table@, self.start_vpn, vpn + 1));
                if self.is_framed() {
                    let p = self.frame_at(vpn)->0;
                    assert(!prev_fa.allocated(p));
                    assert forall|w: usize| self.start_vpn <= w < vpn + 1
                        implies (#[trigger] self.frame_at(w)) is Some
                            && fa.allocated(self.frame_at(w)->0)
                            && !old(fa).allocated(self.frame_at(w)->0)
                            && fa.page(self.frame_at(w)->0) == zero_page by {
                        if w < vpn {
                            assert(self.frame_at(w) == prev_self.frame_at(w));
                            assert(prev_fa.allocated(prev_self.frame_at(w)->0));
                            assert(self.frame_at(w)->0 != p);
                        }
                    }
                    assert forall|w: usize| vpn + 1 <= w < self.end_vpn
                        implies (#[trigger] self.frame_at(w)) is None by {
                        assert(self.frame_at(w) == prev_self.frame_at(w));
                    }
                    assert forall|v1: usize, v2: usize|
                        self.start_vpn <= v1 < vpn + 1 && self.start_vpn <= v2 < vpn + 1 && v1 != v2
                        implies (#[trigger] self.frame_at(v1))->0 != (#[trigger] self.frame_at(v2))->0 by {
                        if v1 < vpn && v2 < vpn {
                            assert(prev_self.frame_at(v1)->0 != prev_self.frame_at(v2)->0);
                        } else if v1 == vpn && v2 < vpn {
                            assert(prev_fa.allocated(prev_self.frame_at(v2)->0));
                        } else if v2 == vpn && v1 < vpn {
                            assert(prev_fa.allocated(prev_self.frame_at(v1)->0));
                        }
                    }
                }
            }
            vpn += 1;
        }
    }

    /// Release every page of the range and clear its leaf entries.
    #[verifier::rlimit(60)]
    pub fn unmap(&mut self, page_table: &mut PageTable, fa: &mut FrameAllocator)
        requires
            old(self).wf_shape(),
            old(self).fully_mapped(),
            old(self).frames_in(*old(fa)),
            old(self).frames_injective(),
            old(page_table).wf(),
            forall|vpn: usize| old(self).contains(vpn) ==> old(page_table)@.contains_key(vpn),
            old(fa).wf(),
        ensures
            final(self).wf_shape(),
            final(self).same_shape(old(self)),
            final(self).unmapped(),
            final(page_table).wf(),
            final(page_table).root_ppn == old(page_table).root_ppn,
            forall|k: usize| old(self).contains(k) ==> !(#[trigger] final(page_table)@.contains_key(k)),
            forall|k: usize| !old(self).contains(k) ==>
                (#[trigger] final(page_table)@.contains_key(k) == old(page_table)@.contains_key(k)
                 && (old(page_table)@.contains_key(k) ==> final(page_table)@[k] == old(page_table)@[k])),
            final(fa).wf(),
            final(fa).count() == old(fa).count()
                - if old(self).is_framed() { old(self).end_vpn - old(self).start_vpn } else { 0int },
            final(fa).slot_count() == old(fa).slot_count(),
            old(self).is_framed() ==> forall|vpn: usize| #[trigger] old(self).contains(vpn) ==>
                !final(fa).allocated(old(self).frame_at(vpn)->0),
            old(self).preserves_outside_frames(*old(fa), *final(fa)),
            forall|q: usize| !old(fa).allocated(q) ==> !(#[trigger] final(fa).allocated(q)),
            !old(self).is_framed() ==> *final(fa) == *old(fa),
    {
        let mut vpn = self.start_vpn;
        while vpn < self.end_vpn
            invariant
                self.wf_shape(),
                self.same_shape(old(self)),
                old(self).start_vpn <= vpn <= self.end_vpn,
                page_table.wf(),
                page_table.root_ppn == old(page_table).root_ppn,
                fa.wf(),
                forall|vpn: usize| old(self).contains(vpn) ==> old(page_table)@.contains_key(vpn),
                fa.count() == old(fa).count()
                    - if self.is_framed() { vpn - self.start_vpn } else { 0int },
                fa.slot_count() == old(fa).slot_count(),
                self.is_framed() ==> forall|w: usize| vpn <= w < self.end_vpn ==>
                    (#[trigger] self.frame_at(w)) == old(self).frame_at(w)
                    && self.frame_at(w) is Some
                    && fa.allocated(self.frame_at(w)->0),
                self.is_framed() ==> forall|w: usize| self.start_vpn <= w < vpn ==>
                    (#[trigger] self.frame_at(w)) is None,
                self.is_framed() ==> forall|w: usize| self.start_vpn <= w < vpn ==>
                    !fa.allocated((#[trigger] old(self).frame_at(w))->0),
                forall|k: usize| self.start_vpn <= k < vpn ==> !(#[trigger] page_table@.contains_key(k)),
                forall|k: usize| !(self.start_vpn <= k < vpn) ==>
                    (#[trigger] page_table@.contains_key(k) == old(page_table)@.contains_key(k)
                     && (old(page_table)@.contains_key(k) ==> page_table@[k] == old(page_table)@[k])),
                old(self).preserves_outside_frames(*old(fa), *fa),
                forall|q: usize| !old(fa).allocated(q) ==> !(#[trigger] fa.allocated(q)),
                old(self).frames_injective(),
                !self.is_framed() ==> *fa == *old(fa),
            decreases self.end_vpn - vpn,
        {
            let ghost prev_self = *self;
            let ghost prev_fa = *fa;
            let ghost prev_pt = *page_table;
            proof {
                assert(page_table@.contains_key(vpn) == old(page_table)@.contains_key(vpn));
                assert(old(self).contains(vpn));
                assert(page_table@.contains_key(vpn));
                if self.is_framed() {
                    assert(self.frame_at(vpn) == old(self).frame_at(vpn));
                    assert(old(self).owns_frame(old(self).frame_at(vpn)->0));
                    assert(fa.allocated(self.frame_at(vpn)->0));
                }
            }
            self.unmap_one(page_table, fa, vpn);
            proof {
                if self.is_framed() {
                    assert forall|w: usize| self.start_vpn <= w < vpn + 1
                        implies (#[trigger] self.frame_at(w)) is None by {
                        if w < vpn {
                            assert(self.frame_at(w) == prev_self.frame_at(w));
                        }
                    }
                }
                assert forall|k: usize| !(self.start_vpn <= k < vpn + 1)
                    implies (#[trigger] page_table@.contains_key(k) == old(page_table)@.contains_key(k)
                     && (old(page_table)@.contains_key(k) ==> page_table@[k] == old(page_table)@[k])) by {
                    assert(page_table@ == prev_pt@.remove(vpn));
                    assert(k != vpn);
                    assert(page_table@.contains_key(k) == prev_pt@.contains_key(k));
                }
                assert forall|q: usize| old(fa).allocated(q) && !old(self).owns_frame(q)
                    implies #[trigger] fa.allocated(q) && fa.page(q) == old(fa).page(q) by {
                    assert(prev_fa.allocated(q) && prev_fa.page(q) == old(fa).page(q));
                    if self.is_framed() && prev_self.frame_at(vpn) is Some {
                        let p = prev_self.frame_at(vpn)->0;
                        assert(old(self).owns_frame(p));
                        assert(q != p);
                    }
                }
                assert(old(self).preserves_outside_frames(*old(fa), *fa));
            }
            proof {
                if self.is_framed() {
                    let p = prev_self.frame_at(vpn)->0;
                    assert(p == old(self).frame_at(vpn)->0);
                    assert forall|w: usize| vpn + 1 <= w < self.end_vpn
                        implies (#[trigger] self.frame_at(w)) == old(self).frame_at(w)
                            && self.frame_at(w) is Some
                            && fa.allocated(self.frame_at(w)->0) by {
                        assert(self.frame_at(w) == prev_self.frame_at(w));
                        assert(old(self).frame_at(w)->0 != p);
                    }
                    assert forall|w: usize| self.start_vpn <= w < vpn + 1
                        implies !fa.allocated((#[trigger] old(self).frame_at(w))->0) by {
                        if w < vpn {
                            assert(old(self).frame_at(w)->0 != p);
                        }
                    }
                }
            }
            vpn += 1;
        }
        proof {
            if self.is_framed() {
                assert forall|i: int| 0 <= i < self.data_frames@.len()
                    implies self.data_frames@[i] is None by {
                    assert(self.frame_at((self.start_vpn + i) as usize) is None);
                }
            }
        }
    }
}

/// Number of pages that `len` bytes start to fill.
pub open spec fn filled_pages(len: int) -> int {
    if len % (PAGE_SIZE as int) == 0 { len / (PAGE_SIZE as int) } else { len / (PAGE_SIZE as int) + 1 }
}

/// The bytes of `data` that land on page `k`.
pub open spec fn page_chunk(data: Seq<u8>, k: int) -> Seq<u8> {
    data.subrange(
        k * (PAGE_SIZE as int),
        if (k + 1) * (PAGE_SIZE as int) <= data.len() { (k + 1) * (PAGE_SIZE as int) } else { data.len() as int },
    )
}

impl MapArea {
    /// Whether `ppn` backs one of the first `filled_pages(len)` pages.
    pub open spec fn is_filled_frame(&self, len: int, ppn: usize) -> bool {
        exists|k: int| 0 <= k < filled_pages(len)
            && (#[trigger] self.frame_at((self.start_vpn + k) as usize)) == Some(ppn)
    }

    /// Copy `data` into the backing frames, page by page from the range's
    /// first page; the tail of the last touched page keeps its former bytes.
    pub fn copy_data(&self, fa: &mut FrameAllocator, data: &[u8])
        requires
            self.wf_shape(),
            self.is_framed(),
            self.fully_mapped(),
            self.frames_in(*old(fa)),
            self.frames_injective(),
            old(fa).wf(),
            data@.len() <= (self.end_vpn - self.start_vpn) * (PAGE_SIZE as int),
        ensures
            final(fa).wf(),
            final(fa).count() == old(fa).count(),
            final(fa).slot_count() == old(fa).slot_count(),
            forall|q: usize| #[trigger] final(fa).allocated(q) == old(fa).allocated(q),
            forall|k: int| 0 <= k < filled_pages(data@.len() as int) ==>
                final(fa).page((#[trigger] self.frame_at((self.start_vpn + k) as usize))->0)
                    == page_chunk(data@, k)
                        + old(fa).page(self.frame_at((self.start_vpn + k) as usize)->0)
                            .skip(page_chunk(data@, k).len() as int),
            forall|q: usize| old(fa).allocated(q) && !self.is_filled_frame(data@.len() as int, q) ==>
                #[trigger] final(fa).page(q) == old(fa).page(q),
    {
        let len = data.len();
        let mut off: usize = 0;
        let mut k: usize = 0;
        while off < len
            invariant
                self.wf_shape(),
                self.is_framed(),
                self.fully_mapped(),
                self.frames_injective(),
                fa.wf(),
                data@.len() == len,
                data@.len() <= (self.end_vpn - self.start_vpn) * (PAGE_SIZE as int),
                off == k * (PAGE_SIZE as int),
                k >= 1 ==> (k - 1) * (PAGE_SIZE as int) < len,
                k <= self.end_vpn - self.start_vpn,
                fa.count() == old(fa).count(),
                fa.slot_count() == old(fa).slot_count(),
                forall|q: usize| #[trigger] fa.allocated(q) == old(fa).allocated(q),
                self.frames_in(*fa),
                forall|j: int| 0 <= j < k ==>
                    fa.page((#[trigger] self.frame_at((self.start_vpn + j) as usize))->0)
                        == page_chunk(data@, j)
                            + old(fa).page(self.frame_at((self.start_vpn + j) as usize)->0)
                                .skip(page_chunk(data@, j).len() as int),
                forall|q: usize| old(fa).allocated(q)
                        && !(exists|j: int| 0 <= j < k
                            && (#[trigger] self.frame_at((self.start_vpn + j) as usize)) == Some(q))
                    ==> #[trigger] fa.page(q) == old(fa).page(q),
            decreases (self.end_vpn - self.start_vpn) - k,
        {
            proof {
                assert(k < self.end_vpn - self.start_vpn) by (nonlinear_arith)
                    requires
                        off == k * (PAGE_SIZE as int),
                        off < len,
                        len <= (self.end_vpn - self.start_vpn) * (PAGE_SIZE as int),
                        PAGE_SIZE == 4096,
                        k >= 0,
                {}
            }
            let vpn = self.start_vpn + k;
            proof {
                assert(self.contains(vpn));
                assert(self.frame_at(vpn) is Some);
                assert(self.frame_at(vpn) == self.data_frames@[vpn - self.start_vpn]);
            }
            let ppn = match self.data_frames[vpn - self.start_vpn] {
                Some(p) => p,
                None => vstd::pervasive::unreached(),
            };
            proof {
                assert(self.frame_at(vpn) == Some(ppn));
                assert(fa.allocated(ppn));
            }
            proof {
                crate::config::constants_are_consistent();
                assert((k + 1) * (PAGE_SIZE as int) <= (self.end_vpn - self.start_vpn) * (PAGE_SIZE as int))
                    by (nonlinear_arith)
                    requires k + 1 <= self.end_vpn - self.start_vpn, PAGE_SIZE == 4096,
                {}
                assert((self.end_vpn - self.start_vpn) * (PAGE_SIZE as int)
                        <= TRAMPOLINE_VPN * (PAGE_SIZE as int))
                    by (nonlinear_arith)
                    requires self.end_vpn - self.start_vpn <= TRAMPOLINE_VPN, PAGE_SIZE == 4096,
                {}
                assert(off + PAGE_SIZE <= usize::MAX);
            }
            let hi = if off + PAGE_SIZE <= len { off + PAGE_SIZE } else { len };
            let ghost prev_fa = *fa;
            fa.fill_page(ppn, data, off, hi);
            proof {
                assert(page_chunk(data@, k as int) == data@.subrange(off as int, hi as int));
                assert forall|j: int| 0 <= j < k + 1
                    implies fa.page((#[trigger] self.frame_at((self.start_vpn + j) as usize))->0)
                        == page_chunk(data@, j)
                            + old(fa).page(self.frame_at((self.start_vpn + j) as usize)->0)
                                .skip(page_chunk(data@, j).len() as int) by {
                    let pj = self.frame_at((self.start_vpn + j) as usize)->0;
                    if j < k {
                        assert(pj != ppn);
                        assert(fa.page(pj) == prev_fa.page(pj));
                    }
                }
            }
            off = off + PAGE_SIZE;
            k = k + 1;
        }
        proof {
            assert(k == filled_pages(len as int)) by (nonlinear_arith)
                requires
                    off == k * (PAGE_SIZE as int),
                    off >= len,
                    k >= 1 ==> (k - 1) * (PAGE_SIZE as int) < len,
                    k >= 0,
                    len >= 0,
                    PAGE_SIZE == 4096,
                    filled_pages(len as int) == if len as int % (PAGE_SIZE as int) == 0 {
                        len as int / (PAGE_SIZE as int)
                    } else {
                        len as int / (PAGE_SIZE as int) + 1
                    },
            {}
        }
    }
}

} // verus!
