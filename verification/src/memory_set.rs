//! An address space: one page table plus an ordered list of mapping areas.
//! Construction (bare, kernel, from an ELF image, clone), mutation
//! (`mmap`/`munmap` and the MMIO variants), and queries (`translate`,
//! `token`). No two areas overlap, and the page table holds exactly the
//! areas' entries plus the directly installed trampoline page.

use vstd::prelude::*;
use crate::config::{FRAME_LIMIT, MAX_USER_VA, MEMORY_END, PAGE_SIZE, PLIC_END, PLIC_START};
use crate::config::{TRAMPOLINE_VPN, TRAP_CONTEXT, TRAP_CONTEXT_VPN, TRAMPOLINE, USER_STACK_SIZE};
use crate::elf::{count_loads, elf_wf, entry_of, is_load, is_real_load, max_load_end, ph_count};
use crate::elf::{read_u16, read_u32, read_u64, seg_filesz, seg_flags_u32, seg_memsz, seg_off};
use crate::elf::{seg_perm, seg_vaddr};
use crate::frame_allocator::FrameAllocator;
use crate::map_area::{MapArea, MapPermission, MapType, filled_pages, page_chunk, valid_perm_bits};
use crate::map_area::{PERM_R, PERM_U, PERM_W, PERM_X};
use crate::page_table::{PageTable, PageTableEntry, PTE_R, PTE_V, PTE_X};

verus! {

/// A page of zero bytes.
pub open spec fn zero_page() -> Seq<u8> {
    Seq::new(PAGE_SIZE as nat, |i: int| 0u8)
}

/// Whether the page range of `a` meets `[s_vpn, e_vpn)`.
pub open spec fn overlaps_range(a: MapArea, s_vpn: int, e_vpn: int) -> bool {
    a.start_vpn < e_vpn && s_vpn < a.end_vpn
}

/// After a successful map of area `a`, the table holds its entries, each
/// backed by a fresh zeroed frame, with the requested permissions.
pub open spec fn mmap_mapped(
    a: MapArea,
    pt: Map<usize, PageTableEntry>,
    fa0: FrameAllocator,
    fa1: FrameAllocator,
    port: usize,
) -> bool {
    forall|vpn: usize| a.contains(vpn) ==>
        (#[trigger] a.frame_at(vpn)) is Some
        && pt.contains_key(vpn)
        && pt[vpn] == a.pte_for(vpn)
        && pt[vpn].flags == (port_perm(port) | PTE_V)
        && !fa0.allocated(a.frame_at(vpn)->0)
        && fa1.allocated(a.frame_at(vpn)->0)
        && fa1.page(a.frame_at(vpn)->0) == zero_page()
}

/// The range, policy and permissions that loaded segment `k` dictates.
pub open spec fn load_area_matches(s: Seq<u8>, k: int, a: MapArea) -> bool {
    &&& a.start_vpn == crate::map_area::floor_vpn(seg_vaddr(s, k) as usize)
    &&& a.end_vpn == crate::map_area::ceil_vpn((seg_vaddr(s, k) + seg_memsz(s, k)) as usize)
    &&& a.map_type is Framed
    &&& a.map_perm.bits == seg_perm(s, k)
}

/// What page `p` of loaded segment `k` must hold: its slice of the file
/// bytes, zero-filled to the page end.
pub open spec fn load_page_bytes(s: Seq<u8>, k: int, p: int) -> Seq<u8> {
    let bytes = s.subrange(seg_off(s, k), seg_off(s, k) + seg_filesz(s, k));
    if p < filled_pages(seg_filesz(s, k)) {
        page_chunk(bytes, p) + zero_page().skip(page_chunk(bytes, p).len() as int)
    } else {
        zero_page()
    }
}

/// Every page of area `a` holds what segment `k` dictates.
pub open spec fn load_area_contents(s: Seq<u8>, k: int, a: MapArea, fa: FrameAllocator) -> bool {
    forall|p: int| 0 <= p < a.end_vpn - a.start_vpn ==>
        fa.page((#[trigger] a.frame_at((a.start_vpn + p) as usize))->0)
            == load_page_bytes(s, k, p)
}

/// Keep the areas that do not meet `[s, e)`.
pub open spec fn keep_outside(s: int, e: int) -> spec_fn(MapArea) -> bool {
    |a: MapArea| !overlaps_range(a, s, e)
}

/// The permission bits a request word selects: its three low bits shifted
/// onto the R/W/X positions, plus the user bit.
pub open spec fn port_perm(port: usize) -> u8 {
    (port * 2 + 16) as u8
}

/// The two maps agree on every page outside `[s, e)`.
pub open spec fn same_outside(
    m0: Map<usize, PageTableEntry>,
    m1: Map<usize, PageTableEntry>,
    s: int,
    e: int,
) -> bool {
    forall|k: usize| !(s <= k < e) ==>
        (#[trigger] m1.contains_key(k) == m0.contains_key(k)
         && (m0.contains_key(k) ==> m1[k] == m0[k]))
}

/// An address space.
pub struct MemorySet {
    pub page_table: PageTable,
    pub areas: Vec<MapArea>,
    /// The physical page of the trampoline code, once installed. The
    /// trampoline entry lives in the page table without an area of its own.
    pub trampoline_ppn: Option<usize>,
}

impl MemorySet {
    pub open spec fn tramp_installed(&self) -> bool {
        self.trampoline_ppn is Some
    }

    /// Whether some area's range holds `vpn`.
    pub open spec fn in_some_area(&self, vpn: usize) -> bool {
        exists|i: int| 0 <= i < self.areas@.len() && (#[trigger] self.areas@[i]).contains(vpn)
    }

    /// The entry the page table holds for `vpn`, if any.
    pub open spec fn translate_spec(&self, vpn: usize) -> Option<PageTableEntry> {
        if self.page_table@.contains_key(vpn) {
            Some(self.page_table@[vpn])
        } else {
            None
        }
    }

    /// Area ranges are pairwise disjoint.
    pub open spec fn areas_disjoint(&self) -> bool {
        forall|i: int, j: int| 0 <= i < j < self.areas@.len() ==>
            ((#[trigger] self.areas@[i]).end_vpn <= (#[trigger] self.areas@[j]).start_vpn
             || self.areas@[j].end_vpn <= self.areas@[i].start_vpn)
    }

    /// The space's invariant: sound areas, pairwise disjoint, and a page
    /// table that holds exactly the areas' entries (with the policy's target
    /// page and the area's permissions plus the valid bit) and, once
    /// installed, the trampoline entry.
    pub open spec fn wf(&self) -> bool {
        &&& self.page_table.wf()
        &&& forall|i: int| 0 <= i < self.areas@.len() ==>
                (#[trigger] self.areas@[i]).wf_shape()
                && self.areas@[i].fully_mapped()
                && self.areas@[i].frames_injective()
        &&& self.areas_disjoint()
        &&& forall|vpn: usize| #[trigger] self.page_table@.contains_key(vpn) ==>
                self.in_some_area(vpn) || (self.tramp_installed() && vpn == TRAMPOLINE_VPN)
        &&& forall|i: int, vpn: usize| 0 <= i < self.areas@.len()
                && (#[trigger] self.areas@[i].contains(vpn)) ==>
                self.page_table@.contains_key(vpn)
                && self.page_table@[vpn] == self.areas@[i].pte_for(vpn)
        &&& self.tramp_installed() ==> self.page_table@.contains_key(TRAMPOLINE_VPN)
                && self.page_table@[TRAMPOLINE_VPN] == (PageTableEntry {
                    ppn: self.trampoline_ppn->0,
                    flags: PTE_R | PTE_X | PTE_V,
                })
    }

    /// Every framed page's frame is allocated in the pool, and no frame backs
    /// two pages, within or across areas.
    pub open spec fn owns(&self, fa: FrameAllocator) -> bool {
        &&& forall|i: int| 0 <= i < self.areas@.len() ==>
                (#[trigger] self.areas@[i]).frames_in(fa)
        &&& forall|i: int, j: int, q: usize| 0 <= i < self.areas@.len()
                && 0 <= j < self.areas@.len() && i != j
                && (#[trigger] self.areas@[i].owns_frame(q))
                ==> !(#[trigger] self.areas@[j].owns_frame(q))
    }

    /// An empty space: fresh page table, no areas, no trampoline.
    pub fn new_bare(fa: &mut FrameAllocator) -> (ms: Self)
        requires
            old(fa).wf(),
            old(fa).has_room(1),
        ensures
            ms.wf(),
            ms.owns(*final(fa)),
            ms.areas@.len() == 0,
            ms.page_table@ == Map::<usize, PageTableEntry>::empty(),
            !ms.tramp_installed(),
            final(fa).wf(),
            final(fa).count() == old(fa).count() + 1,
            final(fa).slot_count() == old(fa).slot_count() + 1,
            forall|q: usize| #[trigger] old(fa).allocated(q) ==>
                final(fa).allocated(q) && final(fa).page(q) == old(fa).page(q),
    {
        let page_table = PageTable::new(fa);
        MemorySet { page_table, areas: Vec::new(), trampoline_ppn: None }
    }

    /// The activation token of this space's page table.
    pub fn token(&self) -> (t: u64)
        ensures
            t == self.page_table.token_spec(),
    {
        self.page_table.token()
    }

    /// The current leaf entry for `vpn`, if any.
    pub fn translate(&self, vpn: usize) -> (r: Option<PageTableEntry>)
        requires
            self.wf(),
        ensures
            r == self.translate_spec(vpn),
    {
        self.page_table.translate(vpn)
    }

    /// Install the trampoline entry directly into the page table; it is not
    /// recorded as an area.
    fn map_trampoline(&mut self, trampoline_ppn: usize)
        requires
            old(self).wf(),
            !old(self).tramp_installed(),
        ensures
            final(self).wf(),
            final(self).areas@ == old(self).areas@,
            final(self).tramp_installed(),
            final(self).trampoline_ppn == Some(trampoline_ppn),
            final(self).page_table@ == old(self).page_table@.insert(
                TRAMPOLINE_VPN,
                PageTableEntry { ppn: trampoline_ppn, flags: PTE_R | PTE_X | PTE_V },
            ),
            final(self).page_table.root_ppn == old(self).page_table.root_ppn,
            final(self).areas == old(self).areas,
    {
        proof {
            if self.page_table@.contains_key(TRAMPOLINE_VPN) {
                assert(self.in_some_area(TRAMPOLINE_VPN));
                let i = choose|i: int| 0 <= i < self.areas@.len()
                    && (#[trigger] self.areas@[i]).contains(TRAMPOLINE_VPN);
                assert(self.areas@[i].end_vpn <= TRAMPOLINE_VPN);
                assert(false);
            }
        }
        self.page_table.map(TRAMPOLINE_VPN, trampoline_ppn, PTE_R | PTE_X);
        self.trampoline_ppn = Some(trampoline_ppn);
        proof {
            assert((PTE_R | PTE_X) | PTE_V == PTE_R | PTE_X | PTE_V) by (bit_vector);
            assert forall|i: int, vpn: usize| 0 <= i < self.areas@.len()
                && (#[trigger] self.areas@[i].contains(vpn))
                implies self.page_table@.contains_key(vpn)
                && self.page_table@[vpn] == self.areas@[i].pte_for(vpn) by {
                assert(vpn < self.areas@[i].end_vpn);
                assert(vpn != TRAMPOLINE_VPN);
                assert(old(self).page_table@.contains_key(vpn)
                    && old(self).page_table@[vpn] == self.areas@[i].pte_for(vpn));
            }
            assert forall|vpn: usize| #[trigger] self.page_table@.contains_key(vpn)
                implies self.in_some_area(vpn) || (self.tramp_installed() && vpn == TRAMPOLINE_VPN) by {
                if vpn != TRAMPOLINE_VPN {
                    assert(old(self).page_table@.contains_key(vpn));
                    assert(old(self).in_some_area(vpn));
                    let i = choose|i: int| 0 <= i < old(self).areas@.len()
                        && (#[trigger] old(self).areas@[i]).contains(vpn);
                    assert(self.areas@[i].contains(vpn));
                }
            }
        }
    }

    /// Map a fresh area into the space and, if given, copy `data` into its
    /// first pages. The caller guarantees the range is free.
    #[verifier::rlimit(60)]
    fn push(&mut self, map_area: MapArea, data: Option<&[u8]>, fa: &mut FrameAllocator)
        requires
            old(self).wf(),
            old(self).owns(*old(fa)),
            map_area.wf_shape(),
            map_area.unmapped(),
            forall|i: int| 0 <= i < old(self).areas@.len() ==>
                ((#[trigger] old(self).areas@[i]).end_vpn <= map_area.start_vpn
                 || map_area.end_vpn <= old(self).areas@[i].start_vpn),
            old(fa).wf(),
            old(fa).has_room(
                if map_area.is_framed() { map_area.end_vpn - map_area.start_vpn } else { 0int }),
            data is Some ==> map_area.is_framed()
                && data->0@.len() <= (map_area.end_vpn - map_area.start_vpn) * (PAGE_SIZE as int),
        ensures
            final(self).wf(),
            final(self).owns(*final(fa)),
            final(self).trampoline_ppn == old(self).trampoline_ppn,
            final(self).page_table.root_ppn == old(self).page_table.root_ppn,
            final(self).areas@.len() == old(self).areas@.len() + 1,
            final(self).areas@.drop_last() == old(self).areas@,
            final(self).areas@.last().same_shape(&map_area),
            final(self).areas@.last().fully_mapped(),
            same_outside(old(self).page_table@, final(self).page_table@,
                map_area.start_vpn as int, map_area.end_vpn as int),
            forall|vpn: usize| #[trigger] map_area.contains(vpn) ==>
                final(self).page_table@.contains_key(vpn)
                && final(self).page_table@[vpn] == final(self).areas@.last().pte_for(vpn),
            final(fa).wf(),
            final(fa).count() == old(fa).count()
                + if map_area.is_framed() { map_area.end_vpn - map_area.start_vpn } else { 0int },
            final(fa).slot_count() == old(fa).slot_count()
                + if map_area.is_framed() { map_area.end_vpn - map_area.start_vpn } else { 0int },
            forall|q: usize| #[trigger] old(fa).allocated(q) ==>
                final(fa).allocated(q) && final(fa).page(q) == old(fa).page(q),
            map_area.is_framed() ==> forall|vpn: usize| #[trigger] map_area.contains(vpn) ==>
                !old(fa).allocated(final(self).areas@.last().frame_at(vpn)->0)
                && final(fa).allocated(final(self).areas@.last().frame_at(vpn)->0),
            !map_area.is_framed() ==> *final(fa) == *old(fa),
            map_area.is_framed() && data is None ==>
                forall|vpn: usize| #[trigger] map_area.contains(vpn) ==>
                    final(fa).page(final(self).areas@.last().frame_at(vpn)->0) == zero_page(),
            data is Some ==> {
                let a = final(self).areas@.last();
                let bytes = data->0@;
                forall|k: int| 0 <= k < a.end_vpn - a.start_vpn ==>
                    final(fa).page((#[trigger] a.frame_at((a.start_vpn + k) as usize))->0)
                        == if k < filled_pages(bytes.len() as int) {
                            page_chunk(bytes, k) + zero_page().skip(page_chunk(bytes, k).len() as int)
                        } else {
                            zero_page()
                        }
            },
    {
        let mut map_area = map_area;
        let ghost area0 = map_area;
        proof {
            assert forall|vpn: usize| map_area.contains(vpn)
                implies !(#[trigger] self.page_table@.contains_key(vpn)) by {
                if self.page_table@.contains_key(vpn) {
                    assert(vpn < map_area.end_vpn <= TRAMPOLINE_VPN);
                    assert(self.in_some_area(vpn));
                    let i = choose|i: int| 0 <= i < self.areas@.len()
                        && (#[trigger] self.areas@[i]).contains(vpn);
                    assert(self.areas@[i].end_vpn <= map_area.start_vpn
                        || map_area.end_vpn <= self.areas@[i].start_vpn);
                    assert(false);
                }
            }
        }
        map_area.map(&mut self.page_table, fa);
        let ghost mid_fa = *fa;
        proof {
            assert forall|q: usize| #[trigger] (*old(fa)).allocated(q)
                implies mid_fa.allocated(q) && mid_fa.page(q) == (*old(fa)).page(q) by {
                assert(mid_fa.allocated(q));
                assert(mid_fa.page(q) == (*old(fa)).page(q));
            }
        }
        match data {
            Some(bytes) => {
                map_area.copy_data(fa, bytes);
            }
            None => {}
        }
        proof {
            assert forall|q: usize| #[trigger] (*old(fa)).allocated(q)
                implies fa.allocated(q) && fa.page(q) == (*old(fa)).page(q) by {
                assert(mid_fa.allocated(q));
                assert(mid_fa.page(q) == (*old(fa)).page(q));
                assert(fa.allocated(q) == mid_fa.allocated(q));
                if data is Some {
                    if map_area.is_filled_frame(data->0@.len() as int, q) {
                        let k = choose|k: int| 0 <= k < filled_pages(data->0@.len() as int)
                            && (#[trigger] map_area.frame_at((map_area.start_vpn + k) as usize)) == Some(q);
                        assert(area0.contains((map_area.start_vpn + k) as usize));
                        assert(!(*old(fa)).allocated(map_area.frame_at((map_area.start_vpn + k) as usize)->0));
                        assert(false);
                    }
                    assert(fa.page(q) == mid_fa.page(q));
                } else {
                    assert(fa.page(q) == mid_fa.page(q));
                }
            }
        }
        self.areas.push(map_area);
        proof {
            let n = self.areas@.len() - 1;
            assert(self.areas@.drop_last() == old(self).areas@);
            assert(self.areas@[n] == map_area);
            // the page table holds exactly the old entries plus the new range
            assert forall|vpn: usize| #[trigger] self.page_table@.contains_key(vpn)
                implies self.in_some_area(vpn)
                    || (self.tramp_installed() && vpn == TRAMPOLINE_VPN) by {
                if map_area.contains(vpn) {
                    assert(self.areas@[n].contains(vpn));
                } else {
                    assert(old(self).page_table@.contains_key(vpn));
                    if old(self).in_some_area(vpn) {
                        let i = choose|i: int| 0 <= i < old(self).areas@.len()
                            && (#[trigger] old(self).areas@[i]).contains(vpn);
                        assert(self.areas@[i].contains(vpn));
                    }
                }
            }
            assert forall|i: int, vpn: usize| 0 <= i < self.areas@.len()
                && (#[trigger] self.areas@[i].contains(vpn))
                implies self.page_table@.contains_key(vpn)
                && self.page_table@[vpn] == self.areas@[i].pte_for(vpn) by {
                if i < n {
                    assert(self.areas@[i] == old(self).areas@[i]);
                    assert(old(self).areas@[i].contains(vpn));
                    assert(!area0.contains(vpn));
                    assert(old(self).page_table@.contains_key(vpn)
                        && old(self).page_table@[vpn] == self.areas@[i].pte_for(vpn));
                    assert(self.page_table@.contains_key(vpn) == old(self).page_table@.contains_key(vpn));
                    assert(self.page_table@[vpn] == old(self).page_table@[vpn]);
                } else {
                    assert(area0.contains(vpn));
                    assert(self.page_table@.contains_key(vpn)
                        && self.page_table@[vpn] == map_area.pte_for(vpn));
                }
            }
            if self.tramp_installed() {
                assert(!area0.contains(TRAMPOLINE_VPN));
                assert(self.page_table@.contains_key(TRAMPOLINE_VPN)
                    == old(self).page_table@.contains_key(TRAMPOLINE_VPN));
                assert(old(self).page_table@.contains_key(TRAMPOLINE_VPN));
                assert(self.page_table@[TRAMPOLINE_VPN] == old(self).page_table@[TRAMPOLINE_VPN]);
            }
            // ownership: the fresh frames are not owned by the old areas
            assert forall|i: int| 0 <= i < self.areas@.len()
                implies (#[trigger] self.areas@[i]).frames_in(*fa) by {
                if i < n {
                    assert(old(self).areas@[i].frames_in(*old(fa)));
                    assert(self.areas@[i] == old(self).areas@[i]);
                    if self.areas@[i].is_framed() {
                        assert forall|vpn: usize| self.areas@[i].contains(vpn)
                            && (#[trigger] self.areas@[i].frame_at(vpn)) is Some
                            implies fa.allocated(self.areas@[i].frame_at(vpn)->0) by {
                            assert(old(self).areas@[i].is_framed());
                            assert(old(self).areas@[i].contains(vpn));
                            assert(old(self).areas@[i].frame_at(vpn) is Some);
                            assert((*old(fa)).allocated(old(self).areas@[i].frame_at(vpn)->0));
                        }
                    }
                }
            }
            assert forall|i: int, j: int, q: usize| 0 <= i < self.areas@.len()
                && 0 <= j < self.areas@.len() && i != j
                && (#[trigger] self.areas@[i].owns_frame(q))
                implies !(#[trigger] self.areas@[j].owns_frame(q)) by {
                if i < n && j < n {
                    assert(self.areas@[i] == old(self).areas@[i]);
                    assert(self.areas@[j] == old(self).areas@[j]);
                } else if i == n && j < n {
                    if self.areas@[j].owns_frame(q) {
                        let vj = choose|v: usize| self.areas@[j].contains(v)
                            && (#[trigger] self.areas@[j].frame_at(v)) == Some(q);
                        assert(old(self).areas@[j].frames_in((*old(fa))));
                        assert((*old(fa)).allocated(q));
                        let vi = choose|v: usize| self.areas@[n].contains(v)
                            && (#[trigger] self.areas@[n].frame_at(v)) == Some(q);
                        assert(map_area.contains(vi));
                        assert(!(*old(fa)).allocated(q));
                        assert(false);
                    }
                } else if j == n && i < n {
                    let vi = choose|v: usize| self.areas@[i].contains(v)
                        && (#[trigger] self.areas@[i].frame_at(v)) == Some(q);
                    assert(old(self).areas@[i].frames_in((*old(fa))));
                    assert((*old(fa)).allocated(q));
                    if self.areas@[n].owns_frame(q) {
                        let vj = choose|v: usize| self.areas@[n].contains(v)
                            && (#[trigger] self.areas@[n].frame_at(v)) == Some(q);
                        assert(map_area.contains(vj));
                        assert(!(*old(fa)).allocated(q));
                        assert(false);
                    }
                }
            }
            assert(self.page_table.wf());
            assert(forall|i: int| 0 <= i < self.areas@.len() ==>
                (#[trigger] self.areas@[i]).wf_shape()
                && self.areas@[i].fully_mapped()
                && self.areas@[i].frames_injective());
            assert(self.areas_disjoint());
            assert(forall|vpn: usize| #[trigger] self.page_table@.contains_key(vpn) ==>
                self.in_some_area(vpn) || (self.tramp_installed() && vpn == TRAMPOLINE_VPN));
            assert(forall|i: int, vpn: usize| 0 <= i < self.areas@.len()
                && (#[trigger] self.areas@[i].contains(vpn)) ==>
                self.page_table@.contains_key(vpn)
                && self.page_table@[vpn] == self.areas@[i].pte_for(vpn));
            assert(self.tramp_installed() ==> self.page_table@.contains_key(TRAMPOLINE_VPN)
                && self.page_table@[TRAMPOLINE_VPN] == (PageTableEntry {
                    ppn: self.trampoline_ppn->0,
                    flags: PTE_R | PTE_X | PTE_V,
                }));
            assert(self.wf());
            // contents
            if data is Some {
                let a = self.areas@.last();
                let bytes = data->0@;
                assert forall|k: int| 0 <= k < a.end_vpn - a.start_vpn
                    implies fa.page((#[trigger] a.frame_at((a.start_vpn + k) as usize))->0)
                        == if k < filled_pages(bytes.len() as int) {
                            page_chunk(bytes, k) + zero_page().skip(page_chunk(bytes, k).len() as int)
                        } else {
                            zero_page()
                        } by {
                    let vpn = (a.start_vpn + k) as usize;
                    assert(a.contains(vpn));
                    assert(map_area.contains(vpn));
                    let p = a.frame_at(vpn)->0;
                    assert(mid_fa.page(p) == zero_page());
                    if k < filled_pages(bytes.len() as int) {
                        assert(fa.page(p) == page_chunk(bytes, k)
                            + mid_fa.page(a.frame_at((a.start_vpn + k) as usize)->0)
                                .skip(page_chunk(bytes, k).len() as int));
                    } else {
                        if map_area.is_filled_frame(bytes.len() as int, p) {
                            let k2 = choose|k2: int| 0 <= k2 < filled_pages(bytes.len() as int)
                                && (#[trigger] map_area.frame_at((map_area.start_vpn + k2) as usize))
                                    == Some(p);
                            assert(map_area.contains((map_area.start_vpn + k2) as usize));
                            assert(k2 != k);
                            assert(map_area.frame_at((map_area.start_vpn + k2) as usize)->0
                                != map_area.frame_at(vpn)->0);
                            assert(false);
                        }
                        assert(fa.page(p) == mid_fa.page(p));
                    }
                }
            }
        }
    }

    /// Map `[start_va, end_va)` as a framed area with `permission`. The
    /// caller asserts the range is free.
    pub fn insert_framed_area(
        &mut self,
        start_va: usize,
        end_va: usize,
        permission: MapPermission,
        fa: &mut FrameAllocator,
    )
        requires
            old(self).wf(),
            old(self).owns(*old(fa)),
            start_va < end_va <= TRAMPOLINE_VPN * PAGE_SIZE,
            valid_perm_bits(permission.bits),
            forall|i: int| 0 <= i < old(self).areas@.len() ==>
                ((#[trigger] old(self).areas@[i]).end_vpn <= start_va / PAGE_SIZE
                 || crate::map_area::ceil_vpn(end_va) <= old(self).areas@[i].start_vpn),
            old(fa).wf(),
            old(fa).has_room(crate::map_area::ceil_vpn(end_va) - start_va / PAGE_SIZE),
        ensures
            final(self).wf(),
            final(self).owns(*final(fa)),
            final(fa).wf(),
            final(self).areas@.len() == old(self).areas@.len() + 1,
            final(self).areas@.drop_last() == old(self).areas@,
            final(self).areas@.last().start_vpn == start_va / PAGE_SIZE,
            final(self).areas@.last().end_vpn == crate::map_area::ceil_vpn(end_va),
            final(self).areas@.last().map_type is Framed,
            final(self).areas@.last().map_perm == permission,
            final(self).trampoline_ppn == old(self).trampoline_ppn,
            same_outside(old(self).page_table@, final(self).page_table@,
                (start_va / PAGE_SIZE) as int, crate::map_area::ceil_vpn(end_va)),
            forall|q: usize| #[trigger] old(fa).allocated(q) ==>
                final(fa).allocated(q) && final(fa).page(q) == old(fa).page(q),
    {
        let area = MapArea::new(start_va, end_va, MapType::Framed, permission);
        self.push(area, None, fa);
    }

    /// Whether an `mmap` request is acceptable on this space: only the three
    /// permission bits, at least one of them, at most a gibibyte, an aligned
    /// start, and a page range free of every existing area.
    pub open spec fn mmap_ok(&self, start: usize, len: usize, port: usize) -> bool {
        &&& port & !7usize == 0
        &&& port & 7usize != 0
        &&& len <= (1usize << 30)
        &&& start % PAGE_SIZE == 0
        &&& len > 0 ==> forall|i: int| 0 <= i < self.areas@.len() ==>
                !overlaps_range(#[trigger] self.areas@[i],
                    (start / PAGE_SIZE) as int,
                    crate::map_area::ceil_vpn((start + len) as usize))
    }

    /// The byte count a successful `mmap(start, len, _)` reports: the mapped
    /// range, rounded up to whole pages.
    pub open spec fn mmap_ret(start: usize, len: usize) -> int {
        crate::map_area::ceil_vpn((start + len) as usize) * PAGE_SIZE - start
    }

    /// Map `len` bytes at the page-aligned `start` as a fresh framed,
    /// user-accessible area, or report `-1` leaving the space untouched.
    #[verifier::rlimit(60)]
    pub fn mmap(&mut self, start: usize, len: usize, port: usize, fa: &mut FrameAllocator)
        -> (r: Result<isize, isize>)
        requires
            old(self).wf(),
            old(self).owns(*old(fa)),
            old(fa).wf(),
            old(self).mmap_ok(start, len, port) ==> old(fa).has_room(
                crate::map_area::ceil_vpn((start + len) as usize) - (start / PAGE_SIZE)),
            start + len <= usize::MAX - PAGE_SIZE + 1,
        ensures
            final(self).wf(),
            final(self).owns(*final(fa)),
            final(fa).wf(),
            r is Ok <==> old(self).mmap_ok(start, len, port),
            !old(self).mmap_ok(start, len, port) ==>
                r == Err::<isize, isize>(-1isize)
                && *final(self) == *old(self) && *final(fa) == *old(fa),
            old(self).mmap_ok(start, len, port) ==> {
                let s_vpn = (start / PAGE_SIZE) as int;
                let e_vpn = crate::map_area::ceil_vpn((start + len) as usize);
                let a = final(self).areas@.last();
                &&& r == Ok::<isize, isize>(Self::mmap_ret(start, len) as isize)
                &&& (len == 0 ==> *final(self) == *old(self) && *final(fa) == *old(fa))
                &&& len > 0 ==> final(self).areas@.len() == old(self).areas@.len() + 1
                &&& len > 0 ==> final(self).areas@.drop_last() == old(self).areas@
                &&& len > 0 ==> a.start_vpn == s_vpn && a.end_vpn == e_vpn
                        && a.map_type is Framed
                        && a.map_perm.bits == port_perm(port)
                        && a.fully_mapped()
                &&& final(self).trampoline_ppn == old(self).trampoline_ppn
                &&& same_outside(old(self).page_table@, final(self).page_table@, s_vpn, e_vpn)
                &&& len > 0 ==> mmap_mapped(a, final(self).page_table@, *old(fa), *final(fa), port)
                &&& forall|q: usize| #[trigger] old(fa).allocated(q) ==>
                        final(fa).allocated(q) && final(fa).page(q) == old(fa).page(q)
                &&& final(fa).count() == old(fa).count() + (e_vpn - s_vpn)
                &&& final(fa).slot_count() == old(fa).slot_count() + (e_vpn - s_vpn)
            },
    {
        if port & !7usize != 0 || port & 7usize == 0 || len > (1usize << 30) {
            return Err(-1);
        }
        if start % PAGE_SIZE != 0 {
            return Err(-1);
        }
        let end_va = start + len;
        let s_vpn = start / PAGE_SIZE;
        let e_vpn = if end_va % PAGE_SIZE == 0 { end_va / PAGE_SIZE } else { end_va / PAGE_SIZE + 1 };
        if s_vpn == e_vpn {
            return Ok(0);
        }
        let mut i: usize = 0;
        while i < self.areas.len()
            invariant
                0 <= i <= self.areas@.len(),
                *self == *old(self),
                *fa == *old(fa),
                old(self).wf(),
                old(self).owns(*old(fa)),
                old(fa).wf(),
                port & !7usize == 0,
                port & 7usize != 0,
                len <= (1usize << 30),
                start % PAGE_SIZE == 0,
                old(self).mmap_ok(start, len, port) ==> old(fa).has_room(
                    crate::map_area::ceil_vpn((start + len) as usize) - (start / PAGE_SIZE)),
                e_vpn == crate::map_area::ceil_vpn((start + len) as usize),
                s_vpn == start / PAGE_SIZE,
                s_vpn < e_vpn,
                forall|j: int| 0 <= j < i ==>
                    !overlaps_range(#[trigger] self.areas@[j], s_vpn as int, e_vpn as int),
            decreases self.areas@.len() - i,
        {
            let a_start = self.areas[i].start_vpn;
            let a_end = self.areas[i].end_vpn;
            if a_start < e_vpn && s_vpn < a_end {
                proof {
                    assert(len > 0);
                }
                return Err(-1);
            }
            i += 1;
        }
        let bits: u8 = ((port << 1) as u8) | PERM_U;
        proof {
            assert(port << 1usize == port * 2 && port * 2 < 16) by (bit_vector)
                requires port & !7usize == 0 && port & 7usize != 0,
            ;
            assert((port * 2) as u8 | 16u8 == ((port * 2 + 16) as u8)) by (bit_vector)
                requires port * 2 < 16,
            ;
            assert(bits == port_perm(port));
            assert(valid_perm_bits(bits)) by (bit_vector)
                requires bits == ((port * 2 + 16) as u8) && port * 2 < 16,
            ;
            assert((start + len) as usize % PAGE_SIZE != 0
                ==> (start + len) as usize / PAGE_SIZE < TRAMPOLINE_VPN) by {
                crate::config::constants_are_consistent();
                if (start + len) as usize % PAGE_SIZE != 0 {
                    vstd::arithmetic::div_mod::lemma_div_is_ordered(
                        (start + len) as int, TRAMPOLINE_VPN * PAGE_SIZE, PAGE_SIZE as int);
                    vstd::arithmetic::div_mod::lemma_div_multiples_vanish(
                        TRAMPOLINE_VPN as int, PAGE_SIZE as int);
                    vstd::arithmetic::div_mod::lemma_fundamental_div_mod(
                        (start + len) as int, PAGE_SIZE as int);
                }
            }
            assert(len > 0);
        }
        let area = MapArea::new(start, end_va, MapType::Framed, MapPermission { bits });
        let ghost area0m = area;
        let ghost pre_fa2 = *fa;
        self.push(area, None, fa);
        proof {
            let a = self.areas@.last();
            assert forall|vpn: usize| a.contains(vpn)
                implies (#[trigger] a.frame_at(vpn)) is Some
                    && self.page_table@.contains_key(vpn)
                    && self.page_table@[vpn] == a.pte_for(vpn)
                    && self.page_table@[vpn].flags == (port_perm(port) | PTE_V)
                    && !old(fa).allocated(a.frame_at(vpn)->0)
                    && fa.allocated(a.frame_at(vpn)->0)
                    && fa.page(a.frame_at(vpn)->0) == zero_page() by {
                assert(area0m.contains(vpn));
                assert(a.pte_for(vpn).flags == a.map_perm.bits | PTE_V);
            }
            assert(mmap_mapped(a, self.page_table@, *old(fa), *fa, port));
            assert(same_outside(old(self).page_table@, self.page_table@,
                s_vpn as int, e_vpn as int));
            crate::config::constants_are_consistent();
            assert((e_vpn * PAGE_SIZE) <= TRAMPOLINE_VPN * PAGE_SIZE) by (nonlinear_arith)
                requires e_vpn <= TRAMPOLINE_VPN, PAGE_SIZE == 4096,
            {}
            let sl = (start + len) as int;
            let eq = ((start + len) as usize / PAGE_SIZE) as int;
            let er = ((start + len) as usize % PAGE_SIZE) as int;
            vstd::arithmetic::div_mod::lemma_fundamental_div_mod(sl, PAGE_SIZE as int);
            vstd::arithmetic::div_mod::lemma_mod_bound(sl, PAGE_SIZE as int);
            assert(e_vpn * PAGE_SIZE >= start + len) by (nonlinear_arith)
                requires
                    sl == PAGE_SIZE as int * eq + er,
                    0 <= er < PAGE_SIZE,
                    sl == start + len,
                    e_vpn as int == if er == 0 { eq } else { eq + 1 },
                    PAGE_SIZE == 4096,
            {}
            assert(e_vpn * PAGE_SIZE - start <= len + PAGE_SIZE);
        }
        let ret = e_vpn * PAGE_SIZE - start;
        Ok(ret as isize)
    }

    /// Some area lying inside `[s, e)` holds `vpn`.
    pub open spec fn covered_at(&self, vpn: usize, s: int, e: int) -> bool {
        exists|j: int| 0 <= j < self.areas@.len()
            && (#[trigger] self.areas@[j]).contains(vpn)
            && s <= self.areas@[j].start_vpn && self.areas@[j].end_vpn <= e
    }

    /// Every page of `[s, c)` lies in an area contained in `[s, c)`.
    pub open spec fn covered_upto(&self, s: int, c: int) -> bool {
        forall|vpn: usize| s <= vpn < c ==> #[trigger] self.covered_at(vpn, s, c)
    }

    /// The areas meeting `[s, e)` tile it exactly: each lies inside it, and
    /// together they cover every page of it.
    pub open spec fn range_covered(&self, s: int, e: int) -> bool {
        &&& forall|i: int| 0 <= i < self.areas@.len()
                && overlaps_range(#[trigger] self.areas@[i], s, e)
                ==> s <= self.areas@[i].start_vpn && self.areas@[i].end_vpn <= e
        &&& forall|vpn: usize| s <= vpn < e ==> #[trigger] self.covered_at(vpn, s, e)
    }

    /// Whether an unmap request is acceptable: aligned start and an exactly
    /// tiled page range.
    pub open spec fn munmap_ok(&self, start: usize, len: usize) -> bool {
        &&& start % PAGE_SIZE == 0
        &&& len > 0 ==> self.range_covered((start / PAGE_SIZE) as int,
                crate::map_area::ceil_vpn((start + len) as usize))
    }

    /// The index of the first area whose range starts at `vpn`.
    fn find_area_with_start(&self, vpn: usize) -> (r: Option<usize>)
        ensures
            match r {
                Some(i) => i < self.areas@.len()
                    && self.areas@[i as int].start_vpn == vpn
                    && forall|j: int| 0 <= j < i ==> (#[trigger] self.areas@[j]).start_vpn != vpn,
                None => forall|j: int| 0 <= j < self.areas@.len()
                    ==> (#[trigger] self.areas@[j]).start_vpn != vpn,
            },
    {
        let mut i: usize = 0;
        while i < self.areas.len()
            invariant
                i <= self.areas@.len(),
                forall|j: int| 0 <= j < i ==> (#[trigger] self.areas@[j]).start_vpn != vpn,
            decreases self.areas@.len() - i,
        {
            if self.areas[i].start_vpn == vpn {
                return Some(i);
            }
            i += 1;
        }
        None
    }

    /// Decide whether the areas tile `[s_vpn, e_vpn)` exactly.
    #[verifier::rlimit(100)]
    #[verifier::spinoff_prover]
    fn covers_exactly(&self, s_vpn: usize, e_vpn: usize) -> (r: bool)
        requires
            self.wf(),
            s_vpn <= e_vpn,
        ensures
            r == self.range_covered(s_vpn as int, e_vpn as int),
    {
        if s_vpn == e_vpn {
            let mut i: usize = 0;
            while i < self.areas.len()
                invariant
                    i <= self.areas@.len(),
                    forall|j: int| 0 <= j < i ==>
                        !overlaps_range(#[trigger] self.areas@[j], s_vpn as int, e_vpn as int),
                    s_vpn == e_vpn,
                decreases self.areas@.len() - i,
            {
                if self.areas[i].start_vpn < e_vpn && s_vpn < self.areas[i].end_vpn {
                    proof {
                        if self.range_covered(s_vpn as int, e_vpn as int) {
                            assert(overlaps_range(self.areas@[i as int], s_vpn as int, e_vpn as int));
                            assert(false);
                        }
                    }
                    return false;
                }
                i += 1;
            }
            return true;
        }
        let mut c = s_vpn;
        while c < e_vpn
            invariant
                self.wf(),
                s_vpn <= c <= e_vpn,
                self.covered_upto(s_vpn as int, c as int),
            decreases e_vpn - c,
        {
            match self.find_area_with_start(c) {
                Some(i) => {
                    let a_end = self.areas[i].end_vpn;
                    if a_end > e_vpn {
                        proof {
                            if self.range_covered(s_vpn as int, e_vpn as int) {
                                assert(overlaps_range(self.areas@[i as int], s_vpn as int, e_vpn as int));
                                assert(false);
                            }
                        }
                        return false;
                    }
                    proof {
                        let ghost ii = i as int;
                        assert forall|vpn: usize| s_vpn <= vpn < a_end
                            implies #[trigger] self.covered_at(vpn, s_vpn as int, a_end as int) by {
                            if vpn < c {
                                assert(self.covered_at(vpn, s_vpn as int, c as int));
                                let j = choose|j: int| 0 <= j < self.areas@.len()
                                    && (#[trigger] self.areas@[j]).contains(vpn)
                                    && s_vpn <= self.areas@[j].start_vpn
                                    && self.areas@[j].end_vpn <= c;
                                assert(self.areas@[j].contains(vpn)
                                    && s_vpn <= self.areas@[j].start_vpn
                                    && self.areas@[j].end_vpn <= a_end);
                            } else {
                                assert(self.areas@[ii].contains(vpn)
                                    && s_vpn <= self.areas@[ii].start_vpn
                                    && self.areas@[ii].end_vpn <= a_end);
                            }
                        }
                    }
                    c = a_end;
                }
                None => {
                    proof {
                        if self.range_covered(s_vpn as int, e_vpn as int) {
                            assert(self.covered_at(c, s_vpn as int, e_vpn as int));
                            let j = choose|j: int| 0 <= j < self.areas@.len()
                                && (#[trigger] self.areas@[j]).contains(c)
                                && s_vpn <= self.areas@[j].start_vpn
                                && self.areas@[j].end_vpn <= e_vpn;
                            if self.areas@[j].start_vpn < c {
                                assert(c > s_vpn);
                                let p = (c - 1) as usize;
                                assert(self.covered_at(p, s_vpn as int, c as int));
                                let k = choose|k: int| 0 <= k < self.areas@.len()
                                    && (#[trigger] self.areas@[k]).contains(p)
                                    && s_vpn <= self.areas@[k].start_vpn
                                    && self.areas@[k].end_vpn <= c;
                                assert(self.areas@[j].contains(p));
                                assert(k != j);
                                assert(false);
                            }
                            assert(self.areas@[j].start_vpn == c);
                            assert(false);
                        }
                    }
                    return false;
                }
            }
        }
        proof {
            assert forall|i: int| 0 <= i < self.areas@.len()
                && overlaps_range(#[trigger] self.areas@[i], s_vpn as int, e_vpn as int)
                implies s_vpn <= self.areas@[i].start_vpn && self.areas@[i].end_vpn <= e_vpn by {
                let w = if self.areas@[i].start_vpn >= s_vpn {
                    self.areas@[i].start_vpn
                } else {
                    s_vpn
                };
                assert(self.areas@[i].contains(w));
                assert(s_vpn <= w < e_vpn);
                assert(self.covered_at(w, s_vpn as int, e_vpn as int));
                let k = choose|k: int| 0 <= k < self.areas@.len()
                    && (#[trigger] self.areas@[k]).contains(w)
                    && s_vpn <= self.areas@[k].start_vpn
                    && self.areas@[k].end_vpn <= e_vpn;
                assert(k == i);
            }
        }
        true
    }

    /// Whether `q` backs a page of an area that meets `[s, e)`.
    pub open spec fn removed_owns(&self, s: int, e: int, q: usize) -> bool {
        exists|i: int| 0 <= i < self.areas@.len()
            && overlaps_range(#[trigger] self.areas@[i], s, e)
            && self.areas@[i].owns_frame(q)
    }

    /// Unmap and drop every area meeting `[s_vpn, e_vpn)`; the request must
    /// tile exactly, so this clears precisely `[s_vpn, e_vpn)`.
    #[verifier::rlimit(100)]
    #[verifier::spinoff_prover]
    fn remove_covered(&mut self, s_vpn: usize, e_vpn: usize, fa: &mut FrameAllocator)
        requires
            old(self).wf(),
            old(self).owns(*old(fa)),
            old(fa).wf(),
            old(self).range_covered(s_vpn as int, e_vpn as int),
        ensures
            final(self).wf(),
            final(self).owns(*final(fa)),
            final(fa).wf(),
            final(self).areas@ == old(self).areas@.filter(keep_outside(s_vpn as int, e_vpn as int)),
            final(self).trampoline_ppn == old(self).trampoline_ppn,
            final(self).page_table.root_ppn == old(self).page_table.root_ppn,
            forall|k: usize| s_vpn <= k < e_vpn ==> !(#[trigger] final(self).page_table@.contains_key(k)),
            same_outside(old(self).page_table@, final(self).page_table@, s_vpn as int, e_vpn as int),
            final(fa).slot_count() == old(fa).slot_count(),
            forall|q: usize| #[trigger] old(fa).allocated(q)
                && !old(self).removed_owns(s_vpn as int, e_vpn as int, q)
                ==> final(fa).allocated(q) && final(fa).page(q) == old(fa).page(q),
            forall|q: usize| #[trigger] old(self).removed_owns(s_vpn as int, e_vpn as int, q)
                ==> !final(fa).allocated(q),
            forall|q: usize| !(#[trigger] old(fa).allocated(q)) ==> !final(fa).allocated(q),
    {
        let ghost s = s_vpn as int;
        let ghost e = e_vpn as int;
        let ghost orig = old(self).areas@;
        proof {
            if s <= TRAMPOLINE_VPN < e {
                assert(old(self).covered_at(TRAMPOLINE_VPN, s, e));
                let j = choose|j: int| 0 <= j < orig.len()
                    && (#[trigger] orig[j]).contains(TRAMPOLINE_VPN)
                    && s <= orig[j].start_vpn && orig[j].end_vpn <= e;
                assert(false);
            }
            assert(orig.subrange(0, 0).filter(keep_outside(s, e)) =~= Seq::<MapArea>::empty()) by {
                reveal(Seq::filter);
                assert(orig.subrange(0, 0).len() == 0);
            }
        }
        let mut kept: Vec<MapArea> = Vec::new();
        while self.areas.len() > 0
            invariant
                self.areas@.len() <= orig.len(),
                self.areas@ =~= orig.subrange(orig.len() - self.areas@.len(), orig.len() as int),
                kept@ =~= orig.subrange(0, orig.len() - self.areas@.len()).filter(keep_outside(s, e)),
                s == s_vpn as int && e == e_vpn as int,
                !(s <= TRAMPOLINE_VPN < e),
                orig == old(self).areas@,
                old(self).wf(),
                old(self).owns(*old(fa)),
                old(fa).wf(),
                old(self).range_covered(s, e),
                self.trampoline_ppn == old(self).trampoline_ppn,
                self.page_table.wf(),
                self.page_table.root_ppn == old(self).page_table.root_ppn,
                fa.wf(),
                fa.slot_count() == old(fa).slot_count(),
                forall|j: int| 0 <= j < kept@.len() ==>
                    (#[trigger] kept@[j]).wf_shape() && kept@[j].fully_mapped()
                    && kept@[j].frames_injective()
                    && !overlaps_range(kept@[j], s, e),
                forall|j: int| 0 <= j < self.areas@.len() ==>
                    (#[trigger] self.areas@[j]).wf_shape() && self.areas@[j].fully_mapped()
                    && self.areas@[j].frames_injective(),
                forall|i: int, j: int| 0 <= i < j < kept@.len() ==>
                    ((#[trigger] kept@[i]).end_vpn <= (#[trigger] kept@[j]).start_vpn
                     || kept@[j].end_vpn <= kept@[i].start_vpn),
                forall|i: int, j: int| 0 <= i < j < self.areas@.len() ==>
                    ((#[trigger] self.areas@[i]).end_vpn <= (#[trigger] self.areas@[j]).start_vpn
                     || self.areas@[j].end_vpn <= self.areas@[i].start_vpn),
                forall|i: int, j: int| 0 <= i < kept@.len() && 0 <= j < self.areas@.len() ==>
                    ((#[trigger] kept@[i]).end_vpn <= (#[trigger] self.areas@[j]).start_vpn
                     || self.areas@[j].end_vpn <= kept@[i].start_vpn),
                forall|j: int, vpn: usize| 0 <= j < self.areas@.len()
                    && (#[trigger] self.areas@[j].contains(vpn)) ==>
                    self.page_table@.contains_key(vpn)
                    && self.page_table@[vpn] == self.areas@[j].pte_for(vpn),
                forall|j: int, vpn: usize| 0 <= j < kept@.len()
                    && (#[trigger] kept@[j].contains(vpn)) ==>
                    self.page_table@.contains_key(vpn)
                    && self.page_table@[vpn] == kept@[j].pte_for(vpn),
                forall|k: usize| #[trigger] self.page_table@.contains_key(k) ==>
                    (exists|j: int| 0 <= j < self.areas@.len() && (#[trigger] self.areas@[j]).contains(k))
                    || (exists|j: int| 0 <= j < kept@.len() && (#[trigger] kept@[j]).contains(k))
                    || (self.tramp_installed() && k == TRAMPOLINE_VPN),
                self.tramp_installed() ==> self.page_table@.contains_key(TRAMPOLINE_VPN)
                    && self.page_table@[TRAMPOLINE_VPN] == (PageTableEntry {
                        ppn: self.trampoline_ppn->0,
                        flags: PTE_R | PTE_X | PTE_V,
                    }),
                same_outside(old(self).page_table@, self.page_table@, s, e),
                forall|j: int| 0 <= j < self.areas@.len() ==>
                    (#[trigger] self.areas@[j]).frames_in(*fa),
                forall|j: int| 0 <= j < kept@.len() ==>
                    (#[trigger] kept@[j]).frames_in(*fa),
                forall|i: int, j: int, q: usize| 0 <= i < self.areas@.len()
                    && 0 <= j < self.areas@.len() && i != j
                    && (#[trigger] self.areas@[i].owns_frame(q))
                    ==> !(#[trigger] self.areas@[j].owns_frame(q)),
                forall|i: int, j: int, q: usize| 0 <= i < kept@.len()
                    && 0 <= j < kept@.len() && i != j
                    && (#[trigger] kept@[i].owns_frame(q))
                    ==> !(#[trigger] kept@[j].owns_frame(q)),
                forall|i: int, j: int, q: usize| 0 <= i < kept@.len()
                    && 0 <= j < self.areas@.len()
                    && (#[trigger] kept@[i].owns_frame(q))
                    ==> !(#[trigger] self.areas@[j].owns_frame(q)),
                forall|q: usize| #[trigger] old(fa).allocated(q)
                    && !old(self).removed_owns(s, e, q)
                    ==> fa.allocated(q) && fa.page(q) == old(fa).page(q),
                forall|q: usize| #[trigger] old(self).removed_owns(s, e, q)
                    && !(exists|j: int| 0 <= j < self.areas@.len()
                        && (#[trigger] self.areas@[j]).owns_frame(q))
                    ==> !fa.allocated(q),
                forall|q: usize| !(#[trigger] old(fa).allocated(q)) ==> !fa.allocated(q),
            decreases self.areas@.len(),
        {
            let ghost prev_rem = self.areas@;
            let ghost prev_kept = kept@;
            let ghost prev_pt = self.page_table;
            let ghost prev_fa = *fa;
            let ghost idx = orig.len() - prev_rem.len();
            let a = self.areas.remove(0);
            proof {
                assert(a == orig[idx]);
                assert(self.areas@ =~= orig.subrange(orig.len() - self.areas@.len(), orig.len() as int));
                assert(orig.subrange(0, idx + 1).drop_last() =~= orig.subrange(0, idx));
                assert(orig.subrange(0, idx + 1).last() == a);
                reveal(Seq::filter);
            }
            if a.start_vpn < e_vpn && s_vpn < a.end_vpn {
                let mut a = a;
                a.unmap(&mut self.page_table, fa);
                proof {
                    let a0 = prev_rem[0];
                    assert(overlaps_range(a0, s, e));
                    assert forall|j: int, vpn: usize| 0 <= j < self.areas@.len()
                        && (#[trigger] self.areas@[j].contains(vpn))
                        implies self.page_table@.contains_key(vpn)
                        && self.page_table@[vpn] == self.areas@[j].pte_for(vpn) by {
                        assert(self.areas@[j] == prev_rem[j + 1]);
                        assert(prev_rem[j + 1].contains(vpn));
                        assert(prev_pt@.contains_key(vpn)
                            && prev_pt@[vpn] == prev_rem[j + 1].pte_for(vpn));
                        assert(!a0.contains(vpn));
                    }
                    assert forall|j: int, vpn: usize| 0 <= j < kept@.len()
                        && (#[trigger] kept@[j].contains(vpn))
                        implies self.page_table@.contains_key(vpn)
                        && self.page_table@[vpn] == kept@[j].pte_for(vpn) by {
                        assert(prev_pt@.contains_key(vpn)
                            && prev_pt@[vpn] == kept@[j].pte_for(vpn));
                        assert(!a0.contains(vpn));
                    }
                    assert forall|k: usize| #[trigger] self.page_table@.contains_key(k)
                        implies (exists|j: int| 0 <= j < self.areas@.len()
                            && (#[trigger] self.areas@[j]).contains(k))
                        || (exists|j: int| 0 <= j < kept@.len() && (#[trigger] kept@[j]).contains(k))
                        || (self.tramp_installed() && k == TRAMPOLINE_VPN) by {
                        assert(prev_pt@.contains_key(k));
                        assert(!a0.contains(k));
                        if exists|j: int| 0 <= j < prev_rem.len() && (#[trigger] prev_rem[j]).contains(k) {
                            let j = choose|j: int| 0 <= j < prev_rem.len()
                                && (#[trigger] prev_rem[j]).contains(k);
                            assert(j != 0);
                            assert(self.areas@[j - 1].contains(k));
                        }
                    }
                    if self.tramp_installed() {
                        assert(!a0.contains(TRAMPOLINE_VPN));
                    }
                    assert forall|j: int| 0 <= j < self.areas@.len()
                        implies (#[trigger] self.areas@[j]).frames_in(*fa) by {
                        assert(self.areas@[j] == prev_rem[j + 1]);
                        if self.areas@[j].is_framed() {
                            assert forall|vpn: usize| self.areas@[j].contains(vpn)
                                && (#[trigger] self.areas@[j].frame_at(vpn)) is Some
                                implies fa.allocated(self.areas@[j].frame_at(vpn)->0) by {
                                let q = self.areas@[j].frame_at(vpn)->0;
                                assert(prev_rem[j + 1].owns_frame(q));
                                assert(!a0.owns_frame(q));
                                assert(prev_fa.allocated(q));
                            }
                        }
                    }
                    assert forall|j: int| 0 <= j < kept@.len()
                        implies (#[trigger] kept@[j]).frames_in(*fa) by {
                        if kept@[j].is_framed() {
                            assert forall|vpn: usize| kept@[j].contains(vpn)
                                && (#[trigger] kept@[j].frame_at(vpn)) is Some
                                implies fa.allocated(kept@[j].frame_at(vpn)->0) by {
                                let q = kept@[j].frame_at(vpn)->0;
                                assert(kept@[j].owns_frame(q));
                                assert(!a0.owns_frame(q));
                                assert(prev_fa.allocated(q));
                            }
                        }
                    }
                    assert forall|q: usize| #[trigger] old(fa).allocated(q)
                        && !old(self).removed_owns(s, e, q)
                        implies fa.allocated(q) && fa.page(q) == old(fa).page(q) by {
                        assert(prev_fa.allocated(q) && prev_fa.page(q) == old(fa).page(q));
                        if a0.owns_frame(q) {
                            assert(old(self).removed_owns(s, e, q));
                        }
                        assert(!a0.owns_frame(q));
                    }
                    assert forall|q: usize| #[trigger] old(self).removed_owns(s, e, q)
                        && !(exists|j: int| 0 <= j < self.areas@.len()
                            && (#[trigger] self.areas@[j]).owns_frame(q))
                        implies !fa.allocated(q) by {
                        if a0.owns_frame(q) {
                            let vpn = choose|vpn: usize| a0.contains(vpn)
                                && (#[trigger] a0.frame_at(vpn)) == Some(q);
                            assert(!fa.allocated(q));
                        } else {
                            if exists|j: int| 0 <= j < prev_rem.len()
                                && (#[trigger] prev_rem[j]).owns_frame(q) {
                                let j = choose|j: int| 0 <= j < prev_rem.len()
                                    && (#[trigger] prev_rem[j]).owns_frame(q);
                                assert(j != 0);
                                assert(self.areas@[j - 1].owns_frame(q));
                                assert(false);
                            }
                            assert(!prev_fa.allocated(q));
                        }
                    }
                    assert(kept@ =~= orig.subrange(0, orig.len() - self.areas@.len())
                        .filter(keep_outside(s, e)));
                }
            } else {
                kept.push(a);
                proof {
                    assert(kept@ =~= orig.subrange(0, orig.len() - self.areas@.len())
                        .filter(keep_outside(s, e)));
                    assert forall|j: int, vpn: usize| 0 <= j < self.areas@.len()
                        && (#[trigger] self.areas@[j].contains(vpn))
                        implies self.page_table@.contains_key(vpn)
                        && self.page_table@[vpn] == self.areas@[j].pte_for(vpn) by {
                        assert(self.areas@[j] == prev_rem[j + 1]);
                        assert(prev_rem[j + 1].contains(vpn));
                    }
                    assert forall|k: usize| #[trigger] self.page_table@.contains_key(k)
                        implies (exists|j: int| 0 <= j < self.areas@.len()
                            && (#[trigger] self.areas@[j]).contains(k))
                        || (exists|j: int| 0 <= j < kept@.len() && (#[trigger] kept@[j]).contains(k))
                        || (self.tramp_installed() && k == TRAMPOLINE_VPN) by {
                        if exists|j: int| 0 <= j < prev_rem.len() && (#[trigger] prev_rem[j]).contains(k) {
                            let j = choose|j: int| 0 <= j < prev_rem.len()
                                && (#[trigger] prev_rem[j]).contains(k);
                            if j == 0 {
                                assert(kept@[kept@.len() - 1].contains(k));
                            } else {
                                assert(self.areas@[j - 1].contains(k));
                            }
                        } else if exists|j: int| 0 <= j < prev_kept.len()
                            && (#[trigger] prev_kept[j]).contains(k) {
                            let j = choose|j: int| 0 <= j < prev_kept.len()
                                && (#[trigger] prev_kept[j]).contains(k);
                            assert(kept@[j].contains(k));
                        }
                    }
                    assert forall|q: usize| #[trigger] old(self).removed_owns(s, e, q)
                        && !(exists|j: int| 0 <= j < self.areas@.len()
                            && (#[trigger] self.areas@[j]).owns_frame(q))
                        implies !fa.allocated(q) by {
                        if exists|j: int| 0 <= j < prev_rem.len()
                            && (#[trigger] prev_rem[j]).owns_frame(q) {
                            let j = choose|j: int| 0 <= j < prev_rem.len()
                                && (#[trigger] prev_rem[j]).owns_frame(q);
                            if j == 0 {
                                let vpn = choose|vpn: usize| prev_rem[0].contains(vpn)
                                    && (#[trigger] prev_rem[0].frame_at(vpn)) == Some(q);
                                let i0 = choose|i0: int| 0 <= i0 < orig.len()
                                    && overlaps_range(#[trigger] orig[i0], s, e)
                                    && orig[i0].owns_frame(q);
                                assert(!overlaps_range(prev_rem[0], s, e));
                                assert(orig[i0].owns_frame(q));
                                assert(false);
                            } else {
                                assert(self.areas@[j - 1].owns_frame(q));
                                assert(false);
                            }
                        }
                    }
                }
            }
        }
        self.areas = kept;
        proof {
            assert(self.areas@ =~= orig.filter(keep_outside(s, e))) by {
                assert(orig.subrange(0, orig.len() as int) =~= orig);
            }
            assert forall|k: usize| s_vpn <= k < e_vpn
                implies !(#[trigger] self.page_table@.contains_key(k)) by {
                if self.page_table@.contains_key(k) {
                    if exists|j: int| 0 <= j < kept@.len() && (#[trigger] kept@[j]).contains(k) {
                        let j = choose|j: int| 0 <= j < kept@.len() && (#[trigger] kept@[j]).contains(k);
                        assert(overlaps_range(kept@[j], s, e));
                        assert(false);
                    }
                }
            }
            assert forall|vpn: usize| #[trigger] self.page_table@.contains_key(vpn)
                implies self.in_some_area(vpn)
                || (self.tramp_installed() && vpn == TRAMPOLINE_VPN) by {
                if exists|j: int| 0 <= j < kept@.len() && (#[trigger] kept@[j]).contains(vpn) {
                    let j = choose|j: int| 0 <= j < kept@.len() && (#[trigger] kept@[j]).contains(vpn);
                    assert(self.areas@[j].contains(vpn));
                }
            }
            assert forall|q: usize| #[trigger] old(self).removed_owns(s, e, q)
                implies !fa.allocated(q) by {
                assert(!(exists|j: int| 0 <= j < Seq::<MapArea>::empty().len()
                    && (#[trigger] Seq::<MapArea>::empty()[j]).owns_frame(q)));
            }
        }
    }

    /// Unmap `len` bytes at the page-aligned `start`. The request must cover
    /// whole areas exactly; a gap or a partly covered area is refused and
    /// nothing changes.
    pub fn munmap(&mut self, start: usize, len: usize, fa: &mut FrameAllocator)
        -> (r: Result<isize, isize>)
        requires
            old(self).wf(),
            old(self).owns(*old(fa)),
            old(fa).wf(),
            start + len <= usize::MAX,
        ensures
            final(self).wf(),
            final(self).owns(*final(fa)),
            final(fa).wf(),
            r is Ok <==> old(self).munmap_ok(start, len),
            !old(self).munmap_ok(start, len) ==>
                r == Err::<isize, isize>(-1isize)
                && *final(self) == *old(self) && *final(fa) == *old(fa),
            old(self).munmap_ok(start, len) ==> {
                let s_vpn = (start / PAGE_SIZE) as int;
                let e_vpn = crate::map_area::ceil_vpn((start + len) as usize);
                &&& r == Ok::<isize, isize>(len as isize)
                &&& (len == 0 ==> *final(self) == *old(self) && *final(fa) == *old(fa))
                &&& len > 0 ==> final(self).areas@
                        == old(self).areas@.filter(keep_outside(s_vpn, e_vpn))
                &&& final(self).trampoline_ppn == old(self).trampoline_ppn
                &&& forall|k: usize| s_vpn <= k < e_vpn ==>
                        !(#[trigger] final(self).page_table@.contains_key(k))
                &&& same_outside(old(self).page_table@, final(self).page_table@, s_vpn, e_vpn)
                &&& final(fa).slot_count() == old(fa).slot_count()
                &&& forall|q: usize| #[trigger] old(fa).allocated(q)
                        && !old(self).removed_owns(s_vpn, e_vpn, q)
                        ==> final(fa).allocated(q) && final(fa).page(q) == old(fa).page(q)
                &&& len > 0 ==> forall|q: usize| #[trigger] old(self).removed_owns(s_vpn, e_vpn, q)
                        ==> !final(fa).allocated(q)
            },
    {
        if start % PAGE_SIZE != 0 {
            return Err(-1);
        }
        let end_va = start + len;
        let s_vpn = start / PAGE_SIZE;
        let e_vpn = if end_va % PAGE_SIZE == 0 { end_va / PAGE_SIZE } else { end_va / PAGE_SIZE + 1 };
        proof {
            vstd::arithmetic::div_mod::lemma_div_is_ordered(
                start as int, end_va as int, PAGE_SIZE as int);
        }
        if len == 0 {
            return Ok(0);
        }
        if !self.covers_exactly(s_vpn, e_vpn) {
            return Err(-1);
        }
        self.remove_covered(s_vpn, e_vpn, fa);
        Ok(len as isize)
    }

    /// Whether an MMIO map request is acceptable: a sound permission word, a
    /// non-empty aligned range of at most a gibibyte, free of every area.
    pub open spec fn mmio_map_ok(&self, start: usize, end: usize, port: usize) -> bool {
        &&& port & !7usize == 0
        &&& port & 7usize != 0
        &&& end - start <= (1usize << 30)
        &&& start % PAGE_SIZE == 0
        &&& start < end ==> forall|i: int| 0 <= i < self.areas@.len() ==>
                !overlaps_range(#[trigger] self.areas@[i],
                    (start / PAGE_SIZE) as int,
                    crate::map_area::ceil_vpn(end))
    }

    /// Map the byte range `[start, end)` as an identity-mapped device
    /// window, or report `-1` leaving the space untouched. No frame is
    /// allocated.
    #[verifier::rlimit(60)]
    pub fn mmio_map(&mut self, start: usize, end: usize, port: usize, fa: &mut FrameAllocator)
        -> (r: Result<isize, isize>)
        requires
            old(self).wf(),
            old(self).owns(*old(fa)),
            old(fa).wf(),
            start <= end <= usize::MAX - PAGE_SIZE + 1,
        ensures
            final(self).wf(),
            final(self).owns(*final(fa)),
            final(fa).wf(),
            r is Ok <==> old(self).mmio_map_ok(start, end, port),
            !old(self).mmio_map_ok(start, end, port) ==>
                r == Err::<isize, isize>(-1isize)
                && *final(self) == *old(self) && *final(fa) == *old(fa),
            old(self).mmio_map_ok(start, end, port) ==> {
                let s_vpn = (start / PAGE_SIZE) as int;
                let e_vpn = crate::map_area::ceil_vpn(end);
                let a = final(self).areas@.last();
                &&& r == Ok::<isize, isize>((e_vpn * PAGE_SIZE - start) as isize)
                &&& (start == end ==> *final(self) == *old(self))
                &&& start < end ==> final(self).areas@.len() == old(self).areas@.len() + 1
                        && final(self).areas@.drop_last() == old(self).areas@
                        && a.start_vpn == s_vpn && a.end_vpn == e_vpn
                        && a.map_type is Mmio
                        && a.map_perm.bits == port_perm(port)
                &&& final(self).trampoline_ppn == old(self).trampoline_ppn
                &&& same_outside(old(self).page_table@, final(self).page_table@, s_vpn, e_vpn)
                &&& forall|vpn: usize| s_vpn <= vpn < e_vpn ==>
                        #[trigger] final(self).page_table@.contains_key(vpn)
                        && final(self).page_table@[vpn]
                            == (PageTableEntry { ppn: vpn, flags: port_perm(port) | PTE_V })
                &&& *final(fa) == *old(fa)
            },
    {
        if port & !7usize != 0 || port & 7usize == 0 || end - start > (1usize << 30) {
            return Err(-1);
        }
        if start % PAGE_SIZE != 0 {
            return Err(-1);
        }
        let s_vpn = start / PAGE_SIZE;
        let e_vpn = if end % PAGE_SIZE == 0 { end / PAGE_SIZE } else { end / PAGE_SIZE + 1 };
        if s_vpn == e_vpn {
            return Ok(0);
        }
        let mut i: usize = 0;
        while i < self.areas.len()
            invariant
                0 <= i <= self.areas@.len(),
                *self == *old(self),
                *fa == *old(fa),
                old(self).wf(),
                old(self).owns(*old(fa)),
                old(fa).wf(),
                port & !7usize == 0,
                port & 7usize != 0,
                end - start <= (1usize << 30),
                start <= end <= usize::MAX - PAGE_SIZE + 1,
                start % PAGE_SIZE == 0,
                e_vpn == crate::map_area::ceil_vpn(end),
                s_vpn == start / PAGE_SIZE,
                s_vpn < e_vpn,
                forall|j: int| 0 <= j < i ==>
                    !overlaps_range(#[trigger] self.areas@[j], s_vpn as int, e_vpn as int),
            decreases self.areas@.len() - i,
        {
            let a_start = self.areas[i].start_vpn;
            let a_end = self.areas[i].end_vpn;
            if a_start < e_vpn && s_vpn < a_end {
                proof {
                    assert(start < end);
                }
                return Err(-1);
            }
            i += 1;
        }
        let bits: u8 = ((port << 1) as u8) | PERM_U;
        proof {
            assert(port << 1usize == port * 2 && port * 2 < 16) by (bit_vector)
                requires port & !7usize == 0 && port & 7usize != 0,
            ;
            assert((port * 2) as u8 | 16u8 == ((port * 2 + 16) as u8)) by (bit_vector)
                requires port * 2 < 16,
            ;
            assert(bits == port_perm(port));
            assert(valid_perm_bits(bits)) by (bit_vector)
                requires bits == ((port * 2 + 16) as u8) && port * 2 < 16,
            ;
            crate::config::constants_are_consistent();
            assert(start < end);
        }
        let area = MapArea::new(start, end, MapType::Mmio, MapPermission { bits });
        let ghost area0m = area;
        self.push(area, None, fa);
        proof {
            let a = self.areas@.last();
            assert forall|vpn: usize| s_vpn <= vpn < e_vpn
                implies #[trigger] self.page_table@.contains_key(vpn)
                    && self.page_table@[vpn]
                        == (PageTableEntry { ppn: vpn, flags: port_perm(port) | PTE_V }) by {
                assert(area0m.contains(vpn));
                assert(self.page_table@[vpn] == a.pte_for(vpn));
            }
            assert(same_outside(old(self).page_table@, self.page_table@,
                s_vpn as int, e_vpn as int));
            let sl = end as int;
            let eq = (end / PAGE_SIZE) as int;
            let er = (end % PAGE_SIZE) as int;
            vstd::arithmetic::div_mod::lemma_fundamental_div_mod(sl, PAGE_SIZE as int);
            vstd::arithmetic::div_mod::lemma_mod_bound(sl, PAGE_SIZE as int);
            assert(e_vpn * PAGE_SIZE >= end
                    && (e_vpn as int) * (PAGE_SIZE as int) <= end + PAGE_SIZE) by (nonlinear_arith)
                requires
                    sl == PAGE_SIZE as int * eq + er,
                    0 <= er < PAGE_SIZE,
                    sl == end,
                    e_vpn as int == if er == 0 { eq } else { eq + 1 },
                    PAGE_SIZE == 4096,
            {}
            assert((e_vpn * PAGE_SIZE) <= TRAMPOLINE_VPN * PAGE_SIZE) by (nonlinear_arith)
                requires e_vpn <= TRAMPOLINE_VPN, PAGE_SIZE == 4096,
            {}
        }
        let ret = e_vpn * PAGE_SIZE - start;
        Ok(ret as isize)
    }

    /// Whether an MMIO unmap of `[start, end)` is acceptable.
    pub open spec fn mmio_unmap_ok(&self, start: usize, end: usize) -> bool {
        &&& start % PAGE_SIZE == 0
        &&& start < end ==> self.range_covered((start / PAGE_SIZE) as int,
                crate::map_area::ceil_vpn(end))
    }

    /// Unmap the byte range `[start, end)`; like `munmap`, the range must
    /// tile whole areas exactly.
    pub fn mmio_unmap(&mut self, start: usize, end: usize, fa: &mut FrameAllocator)
        -> (r: Result<isize, isize>)
        requires
            old(self).wf(),
            old(self).owns(*old(fa)),
            old(fa).wf(),
            start <= end,
        ensures
            final(self).wf(),
            final(self).owns(*final(fa)),
            final(fa).wf(),
            r is Ok <==> old(self).mmio_unmap_ok(start, end),
            !old(self).mmio_unmap_ok(start, end) ==>
                r == Err::<isize, isize>(-1isize)
                && *final(self) == *old(self) && *final(fa) == *old(fa),
            old(self).mmio_unmap_ok(start, end) ==> {
                let s_vpn = (start / PAGE_SIZE) as int;
                let e_vpn = crate::map_area::ceil_vpn(end);
                &&& r == Ok::<isize, isize>((end - start) as isize)
                &&& (start == end ==> *final(self) == *old(self) && *final(fa) == *old(fa))
                &&& start < end ==> final(self).areas@
                        == old(self).areas@.filter(keep_outside(s_vpn, e_vpn))
                &&& final(self).trampoline_ppn == old(self).trampoline_ppn
                &&& forall|k: usize| s_vpn <= k < e_vpn ==>
                        !(#[trigger] final(self).page_table@.contains_key(k))
                &&& same_outside(old(self).page_table@, final(self).page_table@, s_vpn, e_vpn)
            },
    {
        if start % PAGE_SIZE != 0 {
            return Err(-1);
        }
        let s_vpn = start / PAGE_SIZE;
        let e_vpn = if end % PAGE_SIZE == 0 { end / PAGE_SIZE } else { end / PAGE_SIZE + 1 };
        proof {
            vstd::arithmetic::div_mod::lemma_div_is_ordered(
                start as int, end as int, PAGE_SIZE as int);
        }
        if start == end {
            return Ok(0);
        }
        if !self.covers_exactly(s_vpn, e_vpn) {
            return Err(-1);
        }
        self.remove_covered(s_vpn, e_vpn, fa);
        Ok((end - start) as isize)
    }

    /// Remove the first area starting at `start_vpn`, releasing its frames
    /// and clearing its entries; without one, nothing changes.
    #[verifier::rlimit(100)]
    #[verifier::spinoff_prover]
    pub fn remove_area_with_start_vpn(&mut self, start_vpn: usize, fa: &mut FrameAllocator)
        requires
            old(self).wf(),
            old(self).owns(*old(fa)),
            old(fa).wf(),
        ensures
            final(self).wf(),
            final(self).owns(*final(fa)),
            final(fa).wf(),
            final(self).trampoline_ppn == old(self).trampoline_ppn,
            (forall|j: int| 0 <= j < old(self).areas@.len()
                ==> (#[trigger] old(self).areas@[j]).start_vpn != start_vpn)
                ==> *final(self) == *old(self) && *final(fa) == *old(fa),
            forall|i: int| 0 <= i < old(self).areas@.len()
                && (#[trigger] old(self).areas@[i]).start_vpn == start_vpn
                && (forall|j: int| 0 <= j < i ==> (#[trigger] old(self).areas@[j]).start_vpn != start_vpn)
                ==> final(self).areas@ == old(self).areas@.remove(i)
                    && (forall|k: usize| old(self).areas@[i].contains(k)
                        ==> !(#[trigger] final(self).page_table@.contains_key(k)))
                    && same_outside(old(self).page_table@, final(self).page_table@,
                        old(self).areas@[i].start_vpn as int, old(self).areas@[i].end_vpn as int)
                    && final(fa).count() == old(fa).count() - (if old(self).areas@[i].is_framed() {
                        old(self).areas@[i].end_vpn - old(self).areas@[i].start_vpn
                    } else { 0int })
                    && final(fa).slot_count() == old(fa).slot_count()
                    && (forall|q: usize| old(self).areas@[i].owns_frame(q)
                        ==> !(#[trigger] final(fa).allocated(q)))
                    && (forall|q: usize| #[trigger] old(fa).allocated(q)
                        && !old(self).areas@[i].owns_frame(q)
                        ==> final(fa).allocated(q) && final(fa).page(q) == old(fa).page(q)),
    {
        match self.find_area_with_start(start_vpn) {
            None => {}
            Some(i) => {
                let ghost orig = self.areas@;
                let ghost ii = i as int;
                let mut a = self.areas.remove(i);
                a.unmap(&mut self.page_table, fa);
                proof {
                    let a0 = orig[ii];
                    assert(a.same_shape(&a0));
                    assert forall|j: int, vpn: usize| 0 <= j < self.areas@.len()
                        && (#[trigger] self.areas@[j].contains(vpn))
                        implies self.page_table@.contains_key(vpn)
                        && self.page_table@[vpn] == self.areas@[j].pte_for(vpn) by {
                        let jo = if j < ii { j } else { j + 1 };
                        assert(self.areas@[j] == orig[jo]);
                        assert(orig[jo].contains(vpn));
                        assert(old(self).page_table@.contains_key(vpn)
                            && old(self).page_table@[vpn] == orig[jo].pte_for(vpn));
                        assert(!a0.contains(vpn));
                        assert(self.page_table@.contains_key(vpn)
                            == old(self).page_table@.contains_key(vpn));
                        assert(self.page_table@[vpn] == old(self).page_table@[vpn]);
                    }
                    assert forall|vpn: usize| #[trigger] self.page_table@.contains_key(vpn)
                        implies self.in_some_area(vpn)
                        || (self.tramp_installed() && vpn == TRAMPOLINE_VPN) by {
                        if !(self.tramp_installed() && vpn == TRAMPOLINE_VPN) {
                            assert(old(self).page_table@.contains_key(vpn));
                            assert(old(self).in_some_area(vpn));
                            let j = choose|j: int| 0 <= j < orig.len()
                                && (#[trigger] orig[j]).contains(vpn);
                            assert(j != ii);
                            let jn = if j < ii { j } else { j - 1 };
                            assert(self.areas@[jn] == orig[j]);
                            assert(self.areas@[jn].contains(vpn));
                        }
                    }
                    if self.tramp_installed() {
                        assert(!a0.contains(TRAMPOLINE_VPN));
                    }
                    assert forall|j: int| 0 <= j < self.areas@.len()
                        implies (#[trigger] self.areas@[j]).frames_in(*fa) by {
                        let jo = if j < ii { j } else { j + 1 };
                        assert(self.areas@[j] == orig[jo]);
                        if self.areas@[j].is_framed() {
                            assert forall|vpn: usize| self.areas@[j].contains(vpn)
                                && (#[trigger] self.areas@[j].frame_at(vpn)) is Some
                                implies fa.allocated(self.areas@[j].frame_at(vpn)->0) by {
                                let q = orig[jo].frame_at(vpn)->0;
                                assert(orig[jo].contains(vpn) && orig[jo].frame_at(vpn) is Some);
                                assert(orig[jo].owns_frame(q));
                                assert(!a0.owns_frame(q));
                                assert((*old(fa)).allocated(q));
                            }
                        }
                    }
                    assert forall|j1: int, j2: int, q: usize| 0 <= j1 < self.areas@.len()
                        && 0 <= j2 < self.areas@.len() && j1 != j2
                        && (#[trigger] self.areas@[j1].owns_frame(q))
                        implies !(#[trigger] self.areas@[j2].owns_frame(q)) by {
                        let o1 = if j1 < ii { j1 } else { j1 + 1 };
                        let o2 = if j2 < ii { j2 } else { j2 + 1 };
                        assert(self.areas@[j1] == orig[o1]);
                        assert(self.areas@[j2] == orig[o2]);
                    }
                    assert forall|j1: int, j2: int| 0 <= j1 < j2 < self.areas@.len()
                        implies ((#[trigger] self.areas@[j1]).end_vpn <= (#[trigger] self.areas@[j2]).start_vpn
                         || self.areas@[j2].end_vpn <= self.areas@[j1].start_vpn) by {
                        let o1 = if j1 < ii { j1 } else { j1 + 1 };
                        let o2 = if j2 < ii { j2 } else { j2 + 1 };
                        assert(self.areas@[j1] == orig[o1]);
                        assert(self.areas@[j2] == orig[o2]);
                    }
                    assert forall|q: usize| a0.owns_frame(q)
                        implies !(#[trigger] fa.allocated(q)) by {
                        let vpn = choose|vpn: usize| a0.contains(vpn)
                            && (#[trigger] a0.frame_at(vpn)) == Some(q);
                        assert(!fa.allocated(a0.frame_at(vpn)->0));
                    }
                    assert forall|q: usize| #[trigger] (*old(fa)).allocated(q)
                        && !a0.owns_frame(q)
                        implies fa.allocated(q) && fa.page(q) == (*old(fa)).page(q) by {
                        assert(a0.preserves_outside_frames(*old(fa), *fa));
                    }
                }
            }
        }
    }

    /// Total pages of the framed areas in `s`.
    pub open spec fn total_framed(s: Seq<MapArea>) -> int
        decreases s.len(),
    {
        if s.len() == 0 {
            0
        } else {
            Self::total_framed(s.drop_last())
                + if s.last().is_framed() { s.last().end_vpn - s.last().start_vpn } else { 0int }
        }
    }

    /// Drop every area, returning all framed pages to the pool. The page
    /// table is kept as it stands, dangling entries included, so the space
    /// stays usable for translation during teardown; it holds no framed
    /// memory afterwards.
    #[verifier::rlimit(100)]
    #[verifier::spinoff_prover]
    pub fn recycle_data_pages(&mut self, fa: &mut FrameAllocator)
        requires
            old(self).wf(),
            old(self).owns(*old(fa)),
            old(fa).wf(),
        ensures
            final(self).areas@.len() == 0,
            final(self).page_table == old(self).page_table,
            final(self).trampoline_ppn == old(self).trampoline_ppn,
            final(fa).wf(),
            final(fa).count() == old(fa).count() - Self::total_framed(old(self).areas@),
            final(fa).slot_count() == old(fa).slot_count(),
            forall|q: usize| #[trigger] old(fa).allocated(q)
                && !(exists|i: int| 0 <= i < old(self).areas@.len()
                    && (#[trigger] old(self).areas@[i]).owns_frame(q))
                ==> final(fa).allocated(q) && final(fa).page(q) == old(fa).page(q),
    {
        proof {
            assert(old(self).areas@.subrange(0, old(self).areas@.len() as int)
                =~= old(self).areas@);
        }
        while self.areas.len() > 0
            invariant
                old(self).wf(),
                old(self).owns(*old(fa)),
                old(fa).wf(),
                fa.wf(),
                self.page_table == old(self).page_table,
                self.trampoline_ppn == old(self).trampoline_ppn,
                self.areas@.len() <= old(self).areas@.len(),
                self.areas@ =~= old(self).areas@.subrange(0, self.areas@.len() as int),
                fa.count() == old(fa).count()
                    - (Self::total_framed(old(self).areas@)
                        - Self::total_framed(old(self).areas@.subrange(0, self.areas@.len() as int))),
                fa.slot_count() == old(fa).slot_count(),
                forall|j: int| 0 <= j < self.areas@.len() ==>
                    (#[trigger] self.areas@[j]).frames_in(*fa),
                forall|q: usize| #[trigger] old(fa).allocated(q)
                    && !(exists|i: int| 0 <= i < old(self).areas@.len()
                        && (#[trigger] old(self).areas@[i]).owns_frame(q))
                    ==> fa.allocated(q) && fa.page(q) == old(fa).page(q),
            decreases self.areas@.len(),
        {
            let ghost prev_rem = self.areas@;
            let ghost prev_fa = *fa;
            let a = match self.areas.pop() {
                Some(x) => x,
                None => vstd::pervasive::unreached(),
            };
            let ghost ii = prev_rem.len() - 1;
            proof {
                assert(a == old(self).areas@[ii]);
                assert(prev_rem.drop_last() =~= old(self).areas@.subrange(0, ii));
                assert(self.areas@ =~= prev_rem.drop_last());
                assert(old(self).areas@[ii].wf_shape());
                assert(old(self).areas@[ii].fully_mapped());
                assert(old(self).areas@[ii].frames_injective());
                assert(prev_rem[ii].frames_in(*fa));
            }
            if let MapType::Framed = a.map_type {
                let mut vpn = a.start_vpn;
                while vpn < a.end_vpn
                    invariant
                        a.wf_shape(),
                        a.is_framed(),
                        a.fully_mapped(),
                        a.frames_injective(),
                        a.start_vpn <= vpn <= a.end_vpn,
                        fa.wf(),
                        fa.slot_count() == prev_fa.slot_count(),
                        fa.count() == prev_fa.count() - (vpn - a.start_vpn),
                        forall|w: usize| vpn <= w < a.end_vpn ==>
                            fa.allocated((#[trigger] a.frame_at(w))->0),
                        forall|q: usize| #[trigger] prev_fa.allocated(q) && !a.owns_frame(q)
                            ==> fa.allocated(q) && fa.page(q) == prev_fa.page(q),
                        forall|q: usize| !(#[trigger] prev_fa.allocated(q)) ==> !fa.allocated(q),
                    decreases a.end_vpn - vpn,
                {
                    proof {
                        assert(a.contains(vpn));
                        assert(a.frame_at(vpn) is Some);
                        assert(a.frame_at(vpn) == a.data_frames@[vpn - a.start_vpn]);
                    }
                    let ppn = match a.data_frames[vpn - a.start_vpn] {
                        Some(p) => p,
                        None => vstd::pervasive::unreached(),
                    };
                    proof {
                        assert(a.frame_at(vpn) == Some(ppn));
                        assert(fa.allocated(ppn));
                        assert(a.owns_frame(ppn));
                    }
                    let ghost loop_fa = *fa;
                    fa.frame_dealloc(ppn);
                    proof {
                        assert forall|w: usize| vpn + 1 <= w < a.end_vpn
                            implies fa.allocated((#[trigger] a.frame_at(w))->0) by {
                            assert(a.frame_at(w)->0 != ppn);
                            assert(loop_fa.allocated(a.frame_at(w)->0));
                        }
                        assert forall|q: usize| #[trigger] prev_fa.allocated(q) && !a.owns_frame(q)
                            implies fa.allocated(q) && fa.page(q) == prev_fa.page(q) by {
                            assert(q != ppn);
                            assert(loop_fa.allocated(q) && loop_fa.page(q) == prev_fa.page(q));
                        }
                    }
                    vpn += 1;
                }
            }
            proof {
                assert(Self::total_framed(prev_rem) == Self::total_framed(prev_rem.drop_last())
                    + if a.is_framed() { a.end_vpn - a.start_vpn } else { 0int });
                assert forall|j: int| 0 <= j < self.areas@.len()
                    implies (#[trigger] self.areas@[j]).frames_in(*fa) by {
                    assert(self.areas@[j] == old(self).areas@[j]);
                    if self.areas@[j].is_framed() {
                        assert forall|w: usize| self.areas@[j].contains(w)
                            && (#[trigger] self.areas@[j].frame_at(w)) is Some
                            implies fa.allocated(self.areas@[j].frame_at(w)->0) by {
                            let q = self.areas@[j].frame_at(w)->0;
                            assert(old(self).areas@[j].owns_frame(q));
                            if a.is_framed() {
                                assert(!a.owns_frame(q));
                            }
                            assert(prev_fa.allocated(q));
                        }
                    }
                }
                assert forall|q: usize| #[trigger] old(fa).allocated(q)
                    && !(exists|i: int| 0 <= i < old(self).areas@.len()
                        && (#[trigger] old(self).areas@[i]).owns_frame(q))
                    implies fa.allocated(q) && fa.page(q) == old(fa).page(q) by {
                    assert(prev_fa.allocated(q) && prev_fa.page(q) == old(fa).page(q));
                    if a.is_framed() && a.owns_frame(q) {
                        assert(old(self).areas@[ii].owns_frame(q));
                        assert(false);
                    }
                }
            }
        }
        proof {
            assert(old(self).areas@.subrange(0, 0) =~= Seq::<MapArea>::empty());
            assert(Self::total_framed(Seq::<MapArea>::empty()) == 0);
        }
    }

    /// Splitting a sequence splits the framed-page total.
    proof fn lemma_total_framed_split(s: Seq<MapArea>, i: int)
        requires
            0 <= i <= s.len(),
        ensures
            Self::total_framed(s) == Self::total_framed(s.subrange(0, i))
                + Self::total_framed(s.subrange(i, s.len() as int)),
        decreases s.len() - i,
    {
        if i == s.len() {
            assert(s.subrange(0, i) =~= s);
            assert(s.subrange(i, s.len() as int) =~= Seq::<MapArea>::empty());
        } else {
            let dl = s.drop_last();
            Self::lemma_total_framed_split(dl, i);
            assert(dl.subrange(0, i) =~= s.subrange(0, i));
            assert(s.subrange(i, s.len() as int).drop_last() =~= dl.subrange(i, dl.len() as int));
            assert(s.subrange(i, s.len() as int).last() == s.last());
        }
    }

    /// Sound areas never contribute negatively.
    proof fn lemma_total_framed_nonneg(s: Seq<MapArea>)
        requires
            forall|i: int| 0 <= i < s.len() ==> (#[trigger] s[i]).wf_shape(),
        ensures
            Self::total_framed(s) >= 0,
        decreases s.len(),
    {
        if s.len() > 0 {
            assert(s[s.len() - 1].wf_shape());
            Self::lemma_total_framed_nonneg(s.drop_last());
        }
    }

    /// Duplicate `user_space`: same area shapes and trampoline, every framed
    /// page backed by a fresh frame holding a copy of the original bytes.
    #[verifier::rlimit(100)]
    #[verifier::spinoff_prover]
    pub fn from_existed_user(user_space: &MemorySet, fa: &mut FrameAllocator) -> (ms: MemorySet)
        requires
            user_space.wf(),
            user_space.owns(*old(fa)),
            old(fa).wf(),
            old(fa).has_room(1 + Self::total_framed(user_space.areas@)),
        ensures
            ms.wf(),
            ms.owns(*final(fa)),
            final(fa).wf(),
            ms.areas@.len() == user_space.areas@.len(),
            forall|i: int| 0 <= i < ms.areas@.len()
                ==> (#[trigger] ms.areas@[i]).same_shape(&user_space.areas@[i]),
            ms.trampoline_ppn == user_space.trampoline_ppn,
            forall|i: int, vpn: usize| 0 <= i < ms.areas@.len()
                && user_space.areas@[i].is_framed()
                && (#[trigger] ms.areas@[i].contains(vpn))
                ==> ms.areas@[i].frame_at(vpn)->0 != user_space.areas@[i].frame_at(vpn)->0
                    && final(fa).page(ms.areas@[i].frame_at(vpn)->0)
                        == old(fa).page(user_space.areas@[i].frame_at(vpn)->0),
            forall|q: usize| #[trigger] old(fa).allocated(q)
                ==> final(fa).allocated(q) && final(fa).page(q) == old(fa).page(q),
            final(fa).count() == old(fa).count() + 1 + Self::total_framed(user_space.areas@),
            final(fa).slot_count() == old(fa).slot_count() + 1
                + Self::total_framed(user_space.areas@),
    {
        proof {
            Self::lemma_total_framed_nonneg(user_space.areas@);
        }
        let mut ms = Self::new_bare(fa);
        match user_space.trampoline_ppn {
            Some(p) => { ms.map_trampoline(p); }
            None => {}
        }
        let n = user_space.areas.len();
        let mut i: usize = 0;
        while i < n
            invariant
                user_space.wf(),
                user_space.owns(*old(fa)),
                old(fa).wf(),
                old(fa).has_room(1 + Self::total_framed(user_space.areas@)),
                n == user_space.areas@.len(),
                i <= n,
                ms.wf(),
                ms.owns(*fa),
                fa.wf(),
                ms.trampoline_ppn == user_space.trampoline_ppn,
                ms.areas@.len() == i,
                forall|j: int| 0 <= j < i
                    ==> (#[trigger] ms.areas@[j]).same_shape(&user_space.areas@[j]),
                fa.slot_count() == old(fa).slot_count() + 1
                    + Self::total_framed(user_space.areas@.subrange(0, i as int)),
                fa.count() == old(fa).count() + 1
                    + Self::total_framed(user_space.areas@.subrange(0, i as int)),
                forall|q: usize| #[trigger] old(fa).allocated(q)
                    ==> fa.allocated(q) && fa.page(q) == old(fa).page(q),
                forall|j: int, vpn: usize| 0 <= j < i
                    && user_space.areas@[j].is_framed()
                    && (#[trigger] ms.areas@[j].contains(vpn))
                    ==> ms.areas@[j].frame_at(vpn)->0 != user_space.areas@[j].frame_at(vpn)->0
                        && fa.page(ms.areas@[j].frame_at(vpn)->0)
                            == old(fa).page(user_space.areas@[j].frame_at(vpn)->0)
                        && !old(fa).allocated(ms.areas@[j].frame_at(vpn)->0),
            decreases n - i,
        {
            let ghost pre_fa = *fa;
            let ghost pre_ms = ms;
            proof {
                Self::lemma_total_framed_split(user_space.areas@, i as int);
                Self::lemma_total_framed_nonneg(
                    user_space.areas@.subrange(i as int, n as int));
                assert(user_space.areas@.subrange(i as int, n as int).drop_first()
                    =~= user_space.areas@.subrange(i + 1, n as int));
                Self::lemma_total_framed_nonneg(user_space.areas@.subrange(i + 1, n as int));
                Self::lemma_total_framed_split(user_space.areas@.subrange(i as int, n as int), 1int);
                assert(user_space.areas@.subrange(i as int, n as int).subrange(0, 1)
                    =~= seq![user_space.areas@[i as int]]);
                assert(seq![user_space.areas@[i as int]].drop_last() =~= Seq::<MapArea>::empty());
                assert(user_space.areas@.subrange(i as int, n as int).subrange(1,
                    user_space.areas@.subrange(i as int, n as int).len() as int)
                    =~= user_space.areas@.subrange(i + 1, n as int));
                assert(user_space.areas@[i as int].wf_shape());
                let single = seq![user_space.areas@[i as int]];
                assert(single.len() == 1);
                assert(single.drop_last() =~= Seq::<MapArea>::empty());
                assert(Self::total_framed(Seq::<MapArea>::empty()) == 0);
                assert(single.last() == user_space.areas@[i as int]);
                assert(Self::total_framed(single)
                    == if user_space.areas@[i as int].is_framed() {
                        user_space.areas@[i as int].end_vpn - user_space.areas@[i as int].start_vpn
                    } else { 0int });
                assert(Self::total_framed(user_space.areas@.subrange(i as int, n as int))
                    == Self::total_framed(seq![user_space.areas@[i as int]])
                        + Self::total_framed(user_space.areas@.subrange(i + 1, n as int)));
                assert(fa.has_room(
                    if user_space.areas@[i as int].is_framed() {
                        user_space.areas@[i as int].end_vpn - user_space.areas@[i as int].start_vpn
                    } else { 0int }));
                assert(user_space.areas@.subrange(0, i + 1).drop_last()
                    =~= user_space.areas@.subrange(0, i as int));
                assert(user_space.areas@.subrange(0, i + 1).last() == user_space.areas@[i as int]);
            }
            let new_area = MapArea::from_another(&user_space.areas[i]);
            let ghost new_area0 = new_area;
            proof {
                assert forall|j: int| 0 <= j < ms.areas@.len()
                    implies ((#[trigger] ms.areas@[j]).end_vpn <= new_area.start_vpn
                     || new_area.end_vpn <= ms.areas@[j].start_vpn) by {
                    assert(ms.areas@[j].same_shape(&user_space.areas@[j]));
                }
            }
            ms.push(new_area, None, fa);
            let src_area = &user_space.areas[i];
            if let MapType::Framed = src_area.map_type {
                let ghost post_push_fa = *fa;
                proof {
                    let a = ms.areas@.last();
                    assert forall|vpn2: usize| #[trigger] a.contains(vpn2)
                        implies !old(fa).allocated(a.frame_at(vpn2)->0)
                            && !pre_fa.allocated(a.frame_at(vpn2)->0)
                            && fa.allocated(a.frame_at(vpn2)->0) by {
                        assert(new_area0.contains(vpn2));
                        assert(!pre_fa.allocated(a.frame_at(vpn2)->0));
                        if old(fa).allocated(a.frame_at(vpn2)->0) {
                            assert(pre_fa.allocated(a.frame_at(vpn2)->0));
                            assert(false);
                        }
                    }
                    assert forall|j: int| 0 <= j < i
                        implies (#[trigger] ms.areas@[j]).same_shape(&user_space.areas@[j])
                            && ms.areas@[j] == pre_ms.areas@[j] by {
                        assert(ms.areas@[j] == ms.areas@.drop_last()[j]);
                        assert(pre_ms.areas@[j].same_shape(&user_space.areas@[j]));
                    }
                }
                let start = src_area.start_vpn;
                let end = src_area.end_vpn;
                let mut vpn = start;
                while vpn < end
                    invariant
                        user_space.wf(),
                        user_space.owns(*old(fa)),
                        old(fa).wf(),
                        fa.wf(),
                        ms.wf(),
                        ms.owns(*fa),
                        i < n == user_space.areas@.len(),
                        *src_area == user_space.areas@[i as int],
                        src_area.is_framed(),
                        start == src_area.start_vpn && end == src_area.end_vpn,
                        start <= vpn <= end,
                        ms.areas@.len() == i + 1,
                        ms.areas@ == pre_ms.areas@.push(ms.areas@.last()),
                        ms.areas@.last().same_shape(src_area),
                        ms.areas@.last().fully_mapped(),
                        ms.trampoline_ppn == pre_ms.trampoline_ppn,
                        ms.page_table == pre_ms.page_table || ms.areas@.len() > 0,
                        fa.slot_count() == post_push_fa.slot_count(),
                        fa.count() == post_push_fa.count(),
                        forall|q: usize| #[trigger] post_push_fa.allocated(q)
                            == fa.allocated(q),
                        forall|q: usize| #[trigger] old(fa).allocated(q)
                            ==> fa.allocated(q) && fa.page(q) == old(fa).page(q),
                        forall|vpn2: usize| #[trigger] ms.areas@.last().contains(vpn2)
                            ==> !old(fa).allocated(ms.areas@.last().frame_at(vpn2)->0)
                                && !pre_fa.allocated(ms.areas@.last().frame_at(vpn2)->0)
                                && fa.allocated(ms.areas@.last().frame_at(vpn2)->0),
                        forall|w: usize| start <= w < vpn
                            ==> fa.page((#[trigger] ms.areas@.last().frame_at(w))->0)
                                == old(fa).page(src_area.frame_at(w)->0),
                        forall|j: int, vpn2: usize| 0 <= j < i
                            && user_space.areas@[j].is_framed()
                            && (#[trigger] ms.areas@[j].contains(vpn2))
                            ==> ms.areas@[j].frame_at(vpn2)->0
                                    != user_space.areas@[j].frame_at(vpn2)->0
                                && fa.page(ms.areas@[j].frame_at(vpn2)->0)
                                    == old(fa).page(user_space.areas@[j].frame_at(vpn2)->0)
                                && !old(fa).allocated(ms.areas@[j].frame_at(vpn2)->0),
                        forall|j: int| 0 <= j < i
                            ==> (#[trigger] ms.areas@[j]).same_shape(&user_space.areas@[j])
                                && ms.areas@[j] == pre_ms.areas@[j],
                    decreases end - vpn,
                {
                    proof {
                        assert(user_space.areas@[i as int].contains(vpn));
                        assert(user_space.page_table@.contains_key(vpn));
                        assert(user_space.page_table@[vpn]
                            == user_space.areas@[i as int].pte_for(vpn));
                        assert(user_space.areas@[i as int].frame_at(vpn) is Some);
                        assert(ms.areas@.last().contains(vpn));
                        assert(ms.areas@[ms.areas@.len() - 1].contains(vpn));
                        assert(ms.page_table@.contains_key(vpn)
                            && ms.page_table@[vpn] == ms.areas@[ms.areas@.len() - 1].pte_for(vpn));
                    }
                    let src_pte = match user_space.translate(vpn) {
                        Some(p) => p,
                        None => vstd::pervasive::unreached(),
                    };
                    let dst_pte = match ms.translate(vpn) {
                        Some(p) => p,
                        None => vstd::pervasive::unreached(),
                    };
                    let src_ppn = src_pte.ppn();
                    let dst_ppn = dst_pte.ppn();
                    let ghost loop_fa = *fa;
                    proof {
                        assert(src_ppn == user_space.areas@[i as int].frame_at(vpn)->0);
                        assert(dst_ppn == ms.areas@.last().frame_at(vpn)->0);
                        assert(user_space.areas@[i as int].owns_frame(src_ppn));
                        assert((*old(fa)).allocated(src_ppn));
                        assert(fa.allocated(src_ppn));
                        assert(fa.allocated(dst_ppn));
                        assert(!(*old(fa)).allocated(dst_ppn));
                        assert(dst_ppn != src_ppn);
                    }
                    fa.copy_page(dst_ppn, src_ppn);
                    proof {
                        let a = ms.areas@.last();
                        assert(fa.page(dst_ppn) == loop_fa.page(src_ppn));
                        assert(loop_fa.page(src_ppn) == old(fa).page(src_ppn));
                        assert forall|w: usize| start <= w < vpn + 1
                            implies fa.page((#[trigger] a.frame_at(w))->0)
                                == old(fa).page(src_area.frame_at(w)->0) by {
                            if w < vpn {
                                assert(a.contains(w) && a.contains(vpn));
                                assert(a.frame_at(w)->0 != dst_ppn);
                                assert(fa.page(a.frame_at(w)->0) == loop_fa.page(a.frame_at(w)->0));
                            }
                        }
                        assert forall|j: int, vpn2: usize| 0 <= j < i
                            && user_space.areas@[j].is_framed()
                            && (#[trigger] ms.areas@[j].contains(vpn2))
                            implies ms.areas@[j].frame_at(vpn2)->0
                                    != user_space.areas@[j].frame_at(vpn2)->0
                                && fa.page(ms.areas@[j].frame_at(vpn2)->0)
                                    == old(fa).page(user_space.areas@[j].frame_at(vpn2)->0)
                                && !old(fa).allocated(ms.areas@[j].frame_at(vpn2)->0) by {
                            let q = ms.areas@[j].frame_at(vpn2)->0;
                            assert(ms.areas@[j].owns_frame(q));
                            assert(!a.owns_frame(q));
                            assert(q != dst_ppn);
                            assert(fa.page(q) == loop_fa.page(q));
                        }
                        assert forall|q: usize| #[trigger] old(fa).allocated(q)
                            implies fa.allocated(q) && fa.page(q) == old(fa).page(q) by {
                            assert(loop_fa.allocated(q) && loop_fa.page(q) == old(fa).page(q));
                            if a.owns_frame(q) {
                                let w = choose|w: usize| a.contains(w)
                                    && (#[trigger] a.frame_at(w)) == Some(q);
                                assert(!old(fa).allocated(q));
                                assert(false);
                            }
                            assert(q != dst_ppn);
                        }
                    }
                    vpn += 1;
                }
            }
            i += 1;
            proof {
                assert forall|j: int| 0 <= j < i
                    implies (#[trigger] ms.areas@[j]).same_shape(&user_space.areas@[j]) by {
                    if j < i - 1 {
                        assert(ms.areas@[j] == pre_ms.areas@[j]);
                        assert(pre_ms.areas@[j].same_shape(&user_space.areas@[j]));
                    } else {
                        assert(ms.areas@[j] == ms.areas@.last());
                    }
                }
                assert forall|j: int, vpn2: usize| 0 <= j < i
                    && user_space.areas@[j].is_framed()
                    && (#[trigger] ms.areas@[j].contains(vpn2))
                    implies ms.areas@[j].frame_at(vpn2)->0
                            != user_space.areas@[j].frame_at(vpn2)->0
                        && fa.page(ms.areas@[j].frame_at(vpn2)->0)
                            == old(fa).page(user_space.areas@[j].frame_at(vpn2)->0)
                        && !old(fa).allocated(ms.areas@[j].frame_at(vpn2)->0) by {
                    if j == i - 1 {
                        assert(ms.areas@[j] == ms.areas@.last());
                        if user_space.areas@[j].is_framed() && ms.areas@[j].contains(vpn2) {
                            assert(user_space.areas@[j].contains(vpn2));
                            assert(user_space.areas@[j].frame_at(vpn2) is Some);
                            assert(user_space.areas@[j].owns_frame(
                                user_space.areas@[j].frame_at(vpn2)->0));
                            assert((*old(fa)).allocated(user_space.areas@[j].frame_at(vpn2)->0));
                        }
                    }
                }
            }
        }
        proof {
            assert(user_space.areas@.subrange(0, n as int) =~= user_space.areas@);
        }
        ms
    }

}

/// The kernel image's section boundaries and the platform's UART window, as
/// byte addresses handed in by the linker and the board configuration.
pub struct KernelLayout {
    pub stext: usize,
    pub etext: usize,
    pub srodata: usize,
    pub erodata: usize,
    pub sdata: usize,
    pub edata: usize,
    pub sbss_with_stack: usize,
    pub ebss: usize,
    pub ekernel: usize,
    pub strampoline: usize,
    pub uart_start: usize,
    pub uart_end: usize,
}

impl KernelLayout {
    /// Page-aligned, ordered sections above the device windows; the UART
    /// window's end may be unaligned and is rounded up to a page.
    pub open spec fn wf(&self) -> bool {
        &&& self.stext % PAGE_SIZE == 0 && self.etext % PAGE_SIZE == 0
        &&& self.srodata % PAGE_SIZE == 0 && self.erodata % PAGE_SIZE == 0
        &&& self.sdata % PAGE_SIZE == 0 && self.edata % PAGE_SIZE == 0
        &&& self.sbss_with_stack % PAGE_SIZE == 0 && self.ebss % PAGE_SIZE == 0
        &&& self.ekernel % PAGE_SIZE == 0
        &&& self.uart_start % PAGE_SIZE == 0
        &&& PLIC_END <= self.uart_start < self.uart_end <= self.stext
        &&& self.stext < self.etext <= self.srodata
        &&& self.srodata < self.erodata <= self.sdata
        &&& self.sdata < self.edata <= self.sbss_with_stack
        &&& self.sbss_with_stack < self.ebss <= self.ekernel
        &&& self.ekernel < MEMORY_END
    }
}

impl MemorySet {
    /// The kernel address space: the trampoline, the four kernel sections
    /// and the physical window identity-mapped, and the interrupt controller
    /// and UART windows as MMIO — all without owned frames.
    #[verifier::rlimit(100)]
    #[verifier::spinoff_prover]
    pub fn new_kernel(layout: &KernelLayout, fa: &mut FrameAllocator) -> (ms: Self)
        requires
            layout.wf(),
            old(fa).wf(),
            old(fa).has_room(1),
        ensures
            ms.wf(),
            ms.owns(*final(fa)),
            final(fa).wf(),
            final(fa).count() == old(fa).count() + 1,
            forall|q: usize| #[trigger] old(fa).allocated(q)
                ==> final(fa).allocated(q) && final(fa).page(q) == old(fa).page(q),
            ms.trampoline_ppn == Some((layout.strampoline / PAGE_SIZE) as usize),
            ms.areas@.len() == 7,
            ms.areas@[0].start_vpn == layout.stext / PAGE_SIZE
                && ms.areas@[0].end_vpn == layout.etext / PAGE_SIZE
                && ms.areas@[0].map_type is Identical
                && ms.areas@[0].map_perm.bits == PERM_R | PERM_X,
            ms.areas@[1].start_vpn == layout.srodata / PAGE_SIZE
                && ms.areas@[1].end_vpn == layout.erodata / PAGE_SIZE
                && ms.areas@[1].map_type is Identical
                && ms.areas@[1].map_perm.bits == PERM_R,
            ms.areas@[2].start_vpn == layout.sdata / PAGE_SIZE
                && ms.areas@[2].end_vpn == layout.edata / PAGE_SIZE
                && ms.areas@[2].map_type is Identical
                && ms.areas@[2].map_perm.bits == PERM_R | PERM_W,
            ms.areas@[3].start_vpn == layout.sbss_with_stack / PAGE_SIZE
                && ms.areas@[3].end_vpn == layout.ebss / PAGE_SIZE
                && ms.areas@[3].map_type is Identical
                && ms.areas@[3].map_perm.bits == PERM_R | PERM_W,
            ms.areas@[4].start_vpn == layout.ekernel / PAGE_SIZE
                && ms.areas@[4].end_vpn == MEMORY_END / PAGE_SIZE
                && ms.areas@[4].map_type is Identical
                && ms.areas@[4].map_perm.bits == PERM_R | PERM_W,
            ms.areas@[5].start_vpn == PLIC_START / PAGE_SIZE
                && ms.areas@[5].end_vpn == PLIC_END / PAGE_SIZE
                && ms.areas@[5].map_type is Mmio
                && ms.areas@[5].map_perm.bits == PERM_R | PERM_W,
            ms.areas@[6].start_vpn == layout.uart_start / PAGE_SIZE
                && ms.areas@[6].end_vpn == crate::map_area::ceil_vpn(layout.uart_end)
                && ms.areas@[6].map_type is Mmio
                && ms.areas@[6].map_perm.bits == PERM_R | PERM_W,
    {
        proof {
            crate::config::constants_are_consistent();
            vstd::arithmetic::div_mod::lemma_div_is_ordered(
                layout.etext as int, layout.srodata as int, PAGE_SIZE as int);
            vstd::arithmetic::div_mod::lemma_div_is_ordered(
                layout.erodata as int, layout.sdata as int, PAGE_SIZE as int);
            vstd::arithmetic::div_mod::lemma_div_is_ordered(
                layout.edata as int, layout.sbss_with_stack as int, PAGE_SIZE as int);
            vstd::arithmetic::div_mod::lemma_div_is_ordered(
                layout.ebss as int, layout.ekernel as int, PAGE_SIZE as int);
            vstd::arithmetic::div_mod::lemma_div_is_ordered(
                PLIC_END as int, layout.uart_start as int, PAGE_SIZE as int);
            assert(crate::map_area::ceil_vpn(layout.uart_end)
                <= layout.stext / PAGE_SIZE) by {
                let ue = layout.uart_end as int;
                let st = layout.stext as int;
                vstd::arithmetic::div_mod::lemma_div_is_ordered(ue, st, PAGE_SIZE as int);
                if ue % (PAGE_SIZE as int) != 0 {
                    assert(ue < st);
                    vstd::arithmetic::div_mod::lemma_div_is_ordered(ue, st - 1, PAGE_SIZE as int);
                    vstd::arithmetic::div_mod::lemma_fundamental_div_mod(st, PAGE_SIZE as int);
                    vstd::arithmetic::div_mod::lemma_fundamental_div_mod(st - 1, PAGE_SIZE as int);
                    vstd::arithmetic::div_mod::lemma_mod_bound(st - 1, PAGE_SIZE as int);
                    assert((st - 1) / (PAGE_SIZE as int) == st / (PAGE_SIZE as int) - 1)
                        by (nonlinear_arith)
                        requires
                            st == (PAGE_SIZE as int) * (st / (PAGE_SIZE as int)),
                            st - 1 == (PAGE_SIZE as int) * ((st - 1) / (PAGE_SIZE as int))
                                + (st - 1) % (PAGE_SIZE as int),
                            0 <= (st - 1) % (PAGE_SIZE as int) < PAGE_SIZE,
                            st >= 1,
                            PAGE_SIZE == 4096,
                    {}
                }
            }
            vstd::arithmetic::div_mod::lemma_div_is_ordered(
                MEMORY_END as int, TRAMPOLINE_VPN * PAGE_SIZE, PAGE_SIZE as int);
            vstd::arithmetic::div_mod::lemma_div_multiples_vanish(
                TRAMPOLINE_VPN as int, PAGE_SIZE as int);
        }
        let mut ms = Self::new_bare(fa);
        ms.map_trampoline(layout.strampoline / PAGE_SIZE);
        let perm_rx = MapPermission { bits: PERM_R | PERM_X };
        let perm_r = MapPermission { bits: PERM_R };
        let perm_rw = MapPermission { bits: PERM_R | PERM_W };
        proof {
            assert(valid_perm_bits(PERM_R | PERM_X)) by (bit_vector);
            assert(valid_perm_bits(PERM_R)) by (bit_vector);
            assert(valid_perm_bits(PERM_R | PERM_W)) by (bit_vector);
        }
        ms.push(MapArea::new(layout.stext, layout.etext, MapType::Identical, perm_rx), None, fa);
        ms.push(MapArea::new(layout.srodata, layout.erodata, MapType::Identical, perm_r), None, fa);
        ms.push(MapArea::new(layout.sdata, layout.edata, MapType::Identical, perm_rw), None, fa);
        ms.push(MapArea::new(layout.sbss_with_stack, layout.ebss, MapType::Identical, perm_rw), None, fa);
        ms.push(MapArea::new(layout.ekernel, MEMORY_END, MapType::Identical, perm_rw), None, fa);
        ms.push(MapArea::new(PLIC_START, PLIC_END, MapType::Mmio, perm_rw), None, fa);
        ms.push(MapArea::new(layout.uart_start, layout.uart_end, MapType::Mmio, perm_rw), None, fa);
        ms
    }

    /// Map one loaded segment into this space: a fresh framed area over the
    /// segment's page range with its requested permissions, its file bytes
    /// copied in from the page range's start, and every later byte zero.
    #[verifier::rlimit(100)]
    #[verifier::spinoff_prover]
    fn push_load_segment(
        &mut self,
        elf_data: &[u8],
        k: usize,
        ph_off_v: usize,
        max_end_vpn: usize,
        fa: &mut FrameAllocator,
    ) -> (new_max: usize)
        requires
            elf_wf(elf_data@),
            ph_off_v == crate::elf::ph_off(elf_data@),
            (k as int) < ph_count(elf_data@),
            is_real_load(elf_data@, k as int),
            old(self).wf(),
            old(self).owns(*old(fa)),
            old(fa).wf(),
            old(fa).slot_count() <= FRAME_LIMIT - 0x100000,
            max_end_vpn == max_load_end(elf_data@, k as int),
            forall|j: int| 0 <= j < old(self).areas@.len()
                ==> (#[trigger] old(self).areas@[j]).end_vpn <= max_end_vpn,
        ensures
            final(self).wf(),
            final(self).owns(*final(fa)),
            final(fa).wf(),
            final(self).trampoline_ppn == old(self).trampoline_ppn,
            final(self).areas@.len() == old(self).areas@.len() + 1,
            final(self).areas@.drop_last() == old(self).areas@,
            new_max == max_load_end(elf_data@, k + 1),
            new_max == final(self).areas@.last().end_vpn,
            max_end_vpn <= new_max <= MAX_USER_VA / PAGE_SIZE + 1,
            load_area_matches(elf_data@, k as int, final(self).areas@.last()),
            load_area_contents(elf_data@, k as int, final(self).areas@.last(), *final(fa)),
            final(fa).slot_count() <= old(fa).slot_count() + (new_max - max_end_vpn),
            old(fa).slot_count() <= final(fa).slot_count(),
            forall|q: usize| #[trigger] old(fa).allocated(q)
                ==> final(fa).allocated(q) && final(fa).page(q) == old(fa).page(q),
    {
        let ghost s = elf_data@;
        let data_len = elf_data.len();
        proof {
            crate::config::constants_are_consistent();
            assert(56 * (k as int) + 56 <= 56 * ph_count(s)) by (nonlinear_arith)
                requires k < ph_count(s),
            {}
            assert(ph_off_v + 56 * (k as int) + 56 <= data_len);
        }
        let ph = ph_off_v + 56 * k;
        let vaddr = read_u64(elf_data, ph + 16) as usize;
        let memsz = read_u64(elf_data, ph + 40) as usize;
        let filesz = read_u64(elf_data, ph + 32) as usize;
        let off = read_u64(elf_data, ph + 8) as usize;
        let flags = read_u32(elf_data, ph + 4);
        let bits: u8 = PERM_U
            | (if flags & 4 != 0 { PERM_R } else { 0u8 })
            | (if flags & 2 != 0 { PERM_W } else { 0u8 })
            | (if flags & 1 != 0 { PERM_X } else { 0u8 });
        proof {
            assert(flags == seg_flags_u32(s, k as int));
            assert(bits == seg_perm(s, k as int));
            let a: u8 = if flags & 4 != 0 { PERM_R } else { 0u8 };
            let b: u8 = if flags & 2 != 0 { PERM_W } else { 0u8 };
            let c: u8 = if flags & 1 != 0 { PERM_X } else { 0u8 };
            assert((16u8 | a | b | c) & !(2u8 | 4u8 | 8u8 | 16u8) == 0) by (bit_vector)
                requires
                    (a == 0u8 || a == 2u8) && (b == 0u8 || b == 4u8)
                        && (c == 0u8 || c == 8u8),
            ;
            assert(valid_perm_bits(bits));
            assert(vaddr + memsz <= MAX_USER_VA);
            assert(MAX_USER_VA <= TRAMPOLINE_VPN * PAGE_SIZE) by {
                crate::config::constants_are_consistent();
            }
        }
        let area = MapArea::new(vaddr, vaddr + memsz, MapType::Framed, MapPermission { bits });
        let ghost area0 = area;
        proof {
            crate::elf::lemma_max_load_end_le(s, k as int, k as int);
            assert(max_load_end(s, k as int) <= crate::map_area::floor_vpn(vaddr));
            assert forall|j: int| 0 <= j < self.areas@.len()
                implies ((#[trigger] self.areas@[j]).end_vpn <= area.start_vpn
                 || area.end_vpn <= self.areas@[j].start_vpn) by {
                assert(self.areas@[j].end_vpn <= max_end_vpn);
            }
            assert(filesz <= memsz);
            assert((area.end_vpn - area.start_vpn) * (PAGE_SIZE as int) >= memsz) by {
                let v = vaddr as int;
                let m = memsz as int;
                let sv = area.start_vpn as int;
                let ev = area.end_vpn as int;
                vstd::arithmetic::div_mod::lemma_fundamental_div_mod(v, PAGE_SIZE as int);
                vstd::arithmetic::div_mod::lemma_fundamental_div_mod(v + m, PAGE_SIZE as int);
                vstd::arithmetic::div_mod::lemma_mod_bound(v + m, PAGE_SIZE as int);
                vstd::arithmetic::div_mod::lemma_mod_bound(v, PAGE_SIZE as int);
                assert((ev - sv) * (PAGE_SIZE as int) >= m) by (nonlinear_arith)
                    requires
                        sv == v / (PAGE_SIZE as int),
                        v == (PAGE_SIZE as int) * sv + v % (PAGE_SIZE as int),
                        0 <= v % (PAGE_SIZE as int) < PAGE_SIZE,
                        v + m == (PAGE_SIZE as int) * ((v + m) / (PAGE_SIZE as int))
                            + (v + m) % (PAGE_SIZE as int),
                        0 <= (v + m) % (PAGE_SIZE as int) < PAGE_SIZE,
                        ev == if (v + m) % (PAGE_SIZE as int) == 0 {
                            (v + m) / (PAGE_SIZE as int)
                        } else {
                            (v + m) / (PAGE_SIZE as int) + 1
                        },
                        PAGE_SIZE == 4096,
                {}
            }
            assert(area.end_vpn <= MAX_USER_VA / PAGE_SIZE + 1) by {
                vstd::arithmetic::div_mod::lemma_div_is_ordered(
                    vaddr + memsz, MAX_USER_VA as int, PAGE_SIZE as int);
            }
            assert(fa.has_room(area.end_vpn - area.start_vpn));
        }
        let new_max = area.end_vpn;
        self.push(area, Some(&elf_data[off..off + filesz]), fa);
        proof {
            assert(max_load_end(s, k + 1) == new_max);
            let a = self.areas@.last();
            let bytes = s.subrange(
                seg_off(s, k as int), seg_off(s, k as int) + seg_filesz(s, k as int));
            assert(elf_data@.subrange(off as int, (off + filesz) as int) == bytes);
            assert(bytes.len() == seg_filesz(s, k as int));
            assert forall|p: int| 0 <= p < a.end_vpn - a.start_vpn
                implies fa.page((#[trigger] a.frame_at((a.start_vpn + p) as usize))->0)
                    == load_page_bytes(s, k as int, p) by {
                assert(fa.page(a.frame_at((a.start_vpn + p) as usize)->0)
                    == if p < filled_pages(bytes.len() as int) {
                        page_chunk(bytes, p) + zero_page().skip(page_chunk(bytes, p).len() as int)
                    } else {
                        zero_page()
                    });
            }
        }
        new_max
    }

    /// Build a user space from a well-formed ELF image: the trampoline, one
    /// framed area per loaded segment filled from its file bytes, a user
    /// stack one guard page past the highest segment, and the trap-context
    /// page. Returns the space, the stack top and the entry point.
    #[verifier::rlimit(100)]
    #[verifier::spinoff_prover]
    pub fn from_elf(elf_data: &[u8], trampoline_ppn: usize, fa: &mut FrameAllocator)
        -> (r: (Self, usize, usize))
        requires
            elf_wf(elf_data@),
            old(fa).wf(),
            old(fa).slot_count() <= FRAME_LIMIT - 0x200000,
        ensures
            r.0.wf(),
            r.0.owns(*final(fa)),
            final(fa).wf(),
            r.0.trampoline_ppn == Some(trampoline_ppn),
            r.2 == entry_of(elf_data@),
            r.1 == max_load_end(elf_data@, ph_count(elf_data@)) * PAGE_SIZE
                + PAGE_SIZE + USER_STACK_SIZE,
            r.0.areas@.len() == count_loads(elf_data@, ph_count(elf_data@)) + 2,
            forall|k2: int| 0 <= k2 < ph_count(elf_data@)
                && #[trigger] is_real_load(elf_data@, k2) ==>
                load_area_matches(elf_data@, k2, r.0.areas@[count_loads(elf_data@, k2)])
                && load_area_contents(elf_data@, k2,
                    r.0.areas@[count_loads(elf_data@, k2)], *final(fa)),
            r.0.areas@[r.0.areas@.len() - 2].start_vpn
                == max_load_end(elf_data@, ph_count(elf_data@)) + 1,
            r.0.areas@[r.0.areas@.len() - 2].end_vpn
                == max_load_end(elf_data@, ph_count(elf_data@)) + 1 + USER_STACK_SIZE / PAGE_SIZE,
            r.0.areas@[r.0.areas@.len() - 2].map_type is Framed,
            r.0.areas@[r.0.areas@.len() - 2].map_perm.bits == PERM_R | PERM_W | PERM_U,
            r.0.areas@[r.0.areas@.len() - 1].start_vpn == TRAP_CONTEXT_VPN,
            r.0.areas@[r.0.areas@.len() - 1].end_vpn == TRAMPOLINE_VPN,
            r.0.areas@[r.0.areas@.len() - 1].map_type is Framed,
            r.0.areas@[r.0.areas@.len() - 1].map_perm.bits == PERM_R | PERM_W,
            forall|q: usize| #[trigger] old(fa).allocated(q)
                ==> final(fa).allocated(q) && final(fa).page(q) == old(fa).page(q),
    {
        let ghost s = elf_data@;
        proof {
            crate::config::constants_are_consistent();
        }
        let mut ms = Self::new_bare(fa);
        ms.map_trampoline(trampoline_ppn);
        let data_len = elf_data.len();
        let ph_off_v = read_u64(elf_data, 32) as usize;
        let ph_count_v = read_u16(elf_data, 56) as usize;
        let mut max_end_vpn: usize = 0;
        let mut k: usize = 0;
        while k < ph_count_v
            invariant
                elf_wf(s),
                s == elf_data@,
                data_len == s.len(),
                old(fa).wf(),
                old(fa).slot_count() <= FRAME_LIMIT - 0x200000,
                ph_off_v == crate::elf::ph_off(s),
                ph_count_v == ph_count(s),
                k <= ph_count_v,
                ms.wf(),
                ms.owns(*fa),
                fa.wf(),
                ms.trampoline_ppn == Some(trampoline_ppn),
                ms.areas@.len() == count_loads(s, k as int),
                max_end_vpn == max_load_end(s, k as int),
                max_end_vpn <= MAX_USER_VA / PAGE_SIZE + 1,
                fa.slot_count() <= old(fa).slot_count() + 1 + max_end_vpn,
                forall|j: int| 0 <= j < ms.areas@.len() ==>
                    (#[trigger] ms.areas@[j]).end_vpn <= max_end_vpn,
                forall|k2: int| 0 <= k2 < k && #[trigger] is_real_load(s, k2) ==>
                    load_area_matches(s, k2, ms.areas@[count_loads(s, k2)])
                    && load_area_contents(s, k2, ms.areas@[count_loads(s, k2)], *fa),
                forall|q: usize| #[trigger] old(fa).allocated(q)
                    ==> fa.allocated(q) && fa.page(q) == old(fa).page(q),
            decreases ph_count_v - k,
        {
            proof {
                assert(56 * (k as int) + 56 <= 56 * ph_count(s)) by (nonlinear_arith)
                    requires k < ph_count(s),
                {}
            }
            let ph = ph_off_v + 56 * k;
            let typ = read_u32(elf_data, ph);
            if typ == 1 {
                let memsz64 = read_u64(elf_data, ph + 40);
                if memsz64 > 0 {
                    proof {
                        assert(is_real_load(s, k as int));
                    }
                    let ghost pre_ms = ms;
                    let ghost pre_fa = *fa;
                    max_end_vpn = ms.push_load_segment(elf_data, k, ph_off_v, max_end_vpn, fa);
                    proof {
                        assert(ms.areas@.len() == count_loads(s, k + 1));
                        assert forall|j: int| 0 <= j < ms.areas@.len()
                            implies (#[trigger] ms.areas@[j]).end_vpn <= max_end_vpn by {
                            if j < ms.areas@.len() - 1 {
                                assert(ms.areas@[j] == pre_ms.areas@[j]);
                            }
                        }
                        assert forall|k2: int| 0 <= k2 < k + 1 && #[trigger] is_real_load(s, k2)
                            implies load_area_matches(s, k2, ms.areas@[count_loads(s, k2)])
                            && load_area_contents(s, k2, ms.areas@[count_loads(s, k2)], *fa) by {
                            if k2 < k {
                                crate::elf::lemma_count_loads_mono(s, k2, k as int);
                                let idx = count_loads(s, k2);
                                assert(ms.areas@[idx] == pre_ms.areas@[idx]);
                                let a2 = pre_ms.areas@[idx];
                                assert(load_area_matches(s, k2, a2));
                                assert(load_area_contents(s, k2, a2, pre_fa));
                                assert forall|p: int| 0 <= p < a2.end_vpn - a2.start_vpn
                                    implies fa.page(
                                        (#[trigger] a2.frame_at((a2.start_vpn + p) as usize))->0)
                                        == load_page_bytes(s, k2, p) by {
                                    let vpn = (a2.start_vpn + p) as usize;
                                    assert(a2.contains(vpn));
                                    assert(pre_ms.areas@[idx].fully_mapped());
                                    assert(a2.frame_at(vpn) is Some);
                                    assert(pre_ms.areas@[idx].frames_in(pre_fa));
                                    assert(pre_fa.allocated(a2.frame_at(vpn)->0));
                                    assert(fa.page(a2.frame_at(vpn)->0)
                                        == pre_fa.page(a2.frame_at(vpn)->0));
                                }
                            } else {
                                assert(count_loads(s, k2) == ms.areas@.len() - 1);
                            }
                        }
                    }
                } else {
                    proof {
                        assert(!is_real_load(s, k as int));
                        assert(count_loads(s, k + 1) == count_loads(s, k as int));
                        assert(max_load_end(s, k + 1) == max_load_end(s, k as int));
                    }
                }
            } else {
                proof {
                    assert(!is_load(s, k as int));
                    assert(!is_real_load(s, k as int));
                    assert(count_loads(s, k + 1) == count_loads(s, k as int));
                    assert(max_load_end(s, k + 1) == max_load_end(s, k as int));
                }
            }
            k += 1;
        }
        // user stack, one guard page past the last segment
        proof {
            crate::config::constants_are_consistent();
            crate::elf::lemma_count_loads_nonneg(s, k as int);
        }
        let user_stack_bottom = (max_end_vpn + 1) * PAGE_SIZE;
        let user_stack_top = user_stack_bottom + USER_STACK_SIZE;
        let perm_rwu = MapPermission { bits: PERM_R | PERM_W | PERM_U };
        let perm_rw = MapPermission { bits: PERM_R | PERM_W };
        proof {
            assert(valid_perm_bits(PERM_R | PERM_W | PERM_U)) by (bit_vector);
            assert(valid_perm_bits(PERM_R | PERM_W)) by (bit_vector);
            assert((max_end_vpn + 1) * (PAGE_SIZE as int) % (PAGE_SIZE as int) == 0
                && (max_end_vpn + 1) * (PAGE_SIZE as int) / (PAGE_SIZE as int)
                    == max_end_vpn + 1) by (nonlinear_arith)
                requires PAGE_SIZE == 4096, max_end_vpn >= 0,
            {}
            assert(((max_end_vpn + 1) * (PAGE_SIZE as int) + USER_STACK_SIZE)
                < TRAP_CONTEXT_VPN * (PAGE_SIZE as int)) by (nonlinear_arith)
                requires
                    max_end_vpn <= MAX_USER_VA / PAGE_SIZE + 1,
                    PAGE_SIZE == 4096,
                    USER_STACK_SIZE == 8192,
                    MAX_USER_VA == 0xf000_0000,
                    TRAP_CONTEXT_VPN > MAX_USER_VA / PAGE_SIZE + 3 + USER_STACK_SIZE / PAGE_SIZE,
            {}
        }
        let ghost pre_stack_ms = ms;
        let ghost pre_stack_fa = *fa;
        let stack_area = MapArea::new(user_stack_bottom, user_stack_top, MapType::Framed, perm_rwu);
        proof {
            assert(stack_area.start_vpn == max_end_vpn + 1);
            assert(stack_area.end_vpn == max_end_vpn + 1 + USER_STACK_SIZE / PAGE_SIZE) by {
                let b = (max_end_vpn + 1) as int * (PAGE_SIZE as int);
                assert((b + USER_STACK_SIZE) % (PAGE_SIZE as int) == 0
                    && (b + USER_STACK_SIZE) / (PAGE_SIZE as int)
                        == max_end_vpn + 1 + USER_STACK_SIZE / PAGE_SIZE) by (nonlinear_arith)
                    requires
                        b == (max_end_vpn + 1) as int * (PAGE_SIZE as int),
                        PAGE_SIZE == 4096,
                        USER_STACK_SIZE == 8192,
                        max_end_vpn >= 0,
                {}
            }
            assert forall|j: int| 0 <= j < ms.areas@.len()
                implies ((#[trigger] ms.areas@[j]).end_vpn <= stack_area.start_vpn
                 || stack_area.end_vpn <= ms.areas@[j].start_vpn) by {
                assert(ms.areas@[j].end_vpn <= max_end_vpn);
            }
        }
        ms.push(stack_area, None, fa);
        // trap context, just below the trampoline
        let ghost pre_trap_ms = ms;
        let ghost pre_trap_fa = *fa;
        let trap_area = MapArea::new(TRAP_CONTEXT, TRAMPOLINE, MapType::Framed, perm_rw);
        proof {
            assert(trap_area.start_vpn == TRAP_CONTEXT_VPN && trap_area.end_vpn == TRAMPOLINE_VPN) by {
                crate::config::constants_are_consistent();
                assert(TRAP_CONTEXT_VPN * (PAGE_SIZE as int) % (PAGE_SIZE as int) == 0
                    && TRAP_CONTEXT_VPN * (PAGE_SIZE as int) / (PAGE_SIZE as int) == TRAP_CONTEXT_VPN
                    && TRAMPOLINE_VPN * (PAGE_SIZE as int) % (PAGE_SIZE as int) == 0
                    && TRAMPOLINE_VPN * (PAGE_SIZE as int) / (PAGE_SIZE as int) == TRAMPOLINE_VPN)
                    by (nonlinear_arith)
                    requires PAGE_SIZE == 4096, TRAP_CONTEXT_VPN >= 0, TRAMPOLINE_VPN >= 0,
                {}
            }
            assert forall|j: int| 0 <= j < ms.areas@.len()
                implies ((#[trigger] ms.areas@[j]).end_vpn <= trap_area.start_vpn
                 || trap_area.end_vpn <= ms.areas@[j].start_vpn) by {
                if j < ms.areas@.len() - 1 {
                    assert(ms.areas@[j] == pre_stack_ms.areas@[j]);
                    assert(ms.areas@[j].end_vpn <= max_end_vpn);
                }
                crate::config::constants_are_consistent();
            }
        }
        ms.push(trap_area, None, fa);
        let entry = read_u64(elf_data, 24) as usize;
        proof {
            let nl = count_loads(s, ph_count(s));
            assert(ms.areas@.len() == nl + 2);
            assert(ms.areas@[ms.areas@.len() - 2] == pre_trap_ms.areas@.last());
            assert forall|k2: int| 0 <= k2 < ph_count(s) && #[trigger] is_real_load(s, k2)
                implies load_area_matches(s, k2, ms.areas@[count_loads(s, k2)])
                && load_area_contents(s, k2, ms.areas@[count_loads(s, k2)], *fa) by {
                crate::elf::lemma_count_loads_mono(s, k2, ph_count(s));
                let idx = count_loads(s, k2);
                assert(idx < nl);
                assert(ms.areas@[idx] == pre_trap_ms.areas@[idx]);
                assert(pre_trap_ms.areas@[idx] == pre_stack_ms.areas@[idx]);
                let a2 = pre_stack_ms.areas@[idx];
                assert(load_area_matches(s, k2, a2));
                assert(load_area_contents(s, k2, a2, pre_stack_fa));
                assert forall|p: int| 0 <= p < a2.end_vpn - a2.start_vpn
                    implies fa.page((#[trigger] a2.frame_at((a2.start_vpn + p) as usize))->0)
                        == load_page_bytes(s, k2, p) by {
                    let vpn = (a2.start_vpn + p) as usize;
                    assert(a2.contains(vpn));
                    assert(pre_stack_ms.areas@[idx].fully_mapped());
                    assert(a2.frame_at(vpn) is Some);
                    assert(pre_stack_ms.areas@[idx].frames_in(pre_stack_fa));
                    assert(pre_stack_fa.allocated(a2.frame_at(vpn)->0));
                    assert(pre_trap_fa.allocated(a2.frame_at(vpn)->0)
                        && pre_trap_fa.page(a2.frame_at(vpn)->0)
                            == pre_stack_fa.page(a2.frame_at(vpn)->0));
                    assert(fa.page(a2.frame_at(vpn)->0) == pre_trap_fa.page(a2.frame_at(vpn)->0));
                }
            }
        }
        (ms, user_stack_top, entry)
    }
}


/// A filter that every element satisfies keeps the sequence whole.
proof fn lemma_filter_keeps_all(s: Seq<MapArea>, pred: spec_fn(MapArea) -> bool)
    requires
        forall|i: int| 0 <= i < s.len() ==> pred(#[trigger] s[i]),
    ensures
        s.filter(pred) == s,
    decreases s.len(),
{
    reveal(Seq::filter);
    if s.len() > 0 {
        assert(forall|i: int| 0 <= i < s.drop_last().len()
            ==> pred(#[trigger] s.drop_last()[i]));
        lemma_filter_keeps_all(s.drop_last(), pred);
        assert(pred(s[s.len() - 1]));
        assert(s.filter(pred) =~= s);
    } else {
        assert(s.filter(pred) =~= s);
    }
}

impl MemorySet {
    /// Law: a successful `mmap` of a fresh range, followed by a `munmap` of
    /// the same request, leaves the space with the identical area list and
    /// identical translations. `m1` is any state `mmap`'s success contract
    /// allows after `m0`, and `m2` any state `munmap`'s success contract
    /// allows after `m1`; the second call is then itself acceptable, and the
    /// end state equals the start state.
    pub proof fn lemma_mmap_munmap_round_trip(
        m0: MemorySet,
        m1: MemorySet,
        m2: MemorySet,
        start: usize,
        len: usize,
        port: usize,
    )
        requires
            m0.wf(),
            m1.wf(),
            len > 0,
            m0.mmap_ok(start, len, port),
            m1.areas@.len() == m0.areas@.len() + 1,
            m1.areas@.drop_last() == m0.areas@,
            m1.areas@.last().start_vpn == start / PAGE_SIZE,
            m1.areas@.last().end_vpn == crate::map_area::ceil_vpn((start + len) as usize),
            m1.trampoline_ppn == m0.trampoline_ppn,
            same_outside(m0.page_table@, m1.page_table@,
                (start / PAGE_SIZE) as int, crate::map_area::ceil_vpn((start + len) as usize)),
            m2.areas@ == m1.areas@.filter(keep_outside(
                (start / PAGE_SIZE) as int, crate::map_area::ceil_vpn((start + len) as usize))),
            forall|k: usize| (start / PAGE_SIZE) as int <= k
                < crate::map_area::ceil_vpn((start + len) as usize)
                ==> !(#[trigger] m2.page_table@.contains_key(k)),
            same_outside(m1.page_table@, m2.page_table@,
                (start / PAGE_SIZE) as int, crate::map_area::ceil_vpn((start + len) as usize)),
        ensures
            m1.munmap_ok(start, len),
            m2.areas@ == m0.areas@,
            m2.page_table@ == m0.page_table@,
    {
        let s = (start / PAGE_SIZE) as int;
        let e = crate::map_area::ceil_vpn((start + len) as usize);
        let n = m0.areas@.len() as int;
        let a = m1.areas@.last();
        assert(a.wf_shape());
        assert(s < e);
        // the fresh area tiles the requested range exactly
        assert forall|vpn: usize| s <= vpn < e implies #[trigger] m1.covered_at(vpn, s, e) by {
            assert(m1.areas@[n].contains(vpn)
                && s <= m1.areas@[n].start_vpn && m1.areas@[n].end_vpn <= e);
        }
        assert forall|i: int| 0 <= i < m1.areas@.len()
            && overlaps_range(#[trigger] m1.areas@[i], s, e)
            implies s <= m1.areas@[i].start_vpn && m1.areas@[i].end_vpn <= e by {
            if i < n {
                assert(m1.areas@[i] == m0.areas@[i]);
                assert(!overlaps_range(m0.areas@[i], s, e));
                assert(false);
            }
        }
        assert(m1.range_covered(s, e));
        // removing the covered areas removes exactly the fresh one
        assert forall|i: int| 0 <= i < n implies keep_outside(s, e)(#[trigger] m0.areas@[i]) by {
            assert(!overlaps_range(m0.areas@[i], s, e));
        }
        assert(m1.areas@.filter(keep_outside(s, e)) == m0.areas@) by {
            reveal(Seq::filter);
            assert(m1.areas@.drop_last() == m0.areas@);
            assert(overlaps_range(a, s, e));
            assert(!keep_outside(s, e)(a));
            lemma_filter_keeps_all(m0.areas@, keep_outside(s, e));
        }
        // the page table returns to its old entries
        assert forall|k: usize| true implies
            #[trigger] m2.page_table@.contains_key(k) == m0.page_table@.contains_key(k)
            && (m0.page_table@.contains_key(k) ==> m2.page_table@[k] == m0.page_table@[k]) by {
            if s <= k < e {
                assert(!m2.page_table@.contains_key(k));
                if m0.page_table@.contains_key(k) {
                    assert(k < e <= TRAMPOLINE_VPN);
                    assert(m0.in_some_area(k) || (m0.tramp_installed() && k == TRAMPOLINE_VPN));
                    assert(m0.in_some_area(k));
                    let i = choose|i: int| 0 <= i < m0.areas@.len()
                        && (#[trigger] m0.areas@[i]).contains(k);
                    assert(overlaps_range(m0.areas@[i], s, e));
                    assert(false);
                }
            } else {
                assert(m1.page_table@.contains_key(k) == m0.page_table@.contains_key(k));
                assert(m2.page_table@.contains_key(k) == m1.page_table@.contains_key(k));
            }
        }
        assert(m2.page_table@ =~= m0.page_table@);
    }

    /// Law: after one successful `mmap`, a second `mmap` whose range begins
    /// exactly at the first range's page bound is also acceptable, and a
    /// single `munmap` spanning both requests is acceptable in the combined
    /// state and restores the original area list and translations. `m1`,
    /// `m2` and `m3` are any states the three operations' success contracts
    /// allow in turn.
    pub proof fn lemma_touching_mmaps_single_munmap(
        m0: MemorySet,
        m1: MemorySet,
        m2: MemorySet,
        m3: MemorySet,
        start1: usize,
        len1: usize,
        port1: usize,
        start2: usize,
        len2: usize,
        port2: usize,
    )
        requires
            m0.wf(),
            m1.wf(),
            m2.wf(),
            len1 > 0,
            len2 > 0,
            m0.mmap_ok(start1, len1, port1),
            // the second request touches the first: it begins at the first
            // range's rounded end, and is itself acceptable against m0
            start2 % PAGE_SIZE == 0,
            (start2 / PAGE_SIZE) as int == crate::map_area::ceil_vpn((start1 + len1) as usize),
            port2 & !7usize == 0,
            port2 & 7usize != 0,
            len2 <= (1usize << 30),
            forall|i: int| 0 <= i < m0.areas@.len() ==>
                !overlaps_range(#[trigger] m0.areas@[i],
                    (start2 / PAGE_SIZE) as int,
                    crate::map_area::ceil_vpn((start2 + len2) as usize)),
            // what the first mmap's success contract gives for m0 -> m1
            m1.areas@.len() == m0.areas@.len() + 1,
            m1.areas@.drop_last() == m0.areas@,
            m1.areas@.last().start_vpn == start1 / PAGE_SIZE,
            m1.areas@.last().end_vpn == crate::map_area::ceil_vpn((start1 + len1) as usize),
            same_outside(m0.page_table@, m1.page_table@,
                (start1 / PAGE_SIZE) as int, crate::map_area::ceil_vpn((start1 + len1) as usize)),
            // what the second mmap's success contract gives for m1 -> m2
            m2.areas@.len() == m1.areas@.len() + 1,
            m2.areas@.drop_last() == m1.areas@,
            m2.areas@.last().start_vpn == start2 / PAGE_SIZE,
            m2.areas@.last().end_vpn == crate::map_area::ceil_vpn((start2 + len2) as usize),
            same_outside(m1.page_table@, m2.page_table@,
                (start2 / PAGE_SIZE) as int, crate::map_area::ceil_vpn((start2 + len2) as usize)),
            // what the spanning munmap's success contract gives for m2 -> m3
            start2 + len2 - start1 <= usize::MAX,
            m3.areas@ == m2.areas@.filter(keep_outside(
                (start1 / PAGE_SIZE) as int, crate::map_area::ceil_vpn((start2 + len2) as usize))),
            forall|k: usize| (start1 / PAGE_SIZE) as int <= k
                < crate::map_area::ceil_vpn((start2 + len2) as usize)
                ==> !(#[trigger] m3.page_table@.contains_key(k)),
            same_outside(m2.page_table@, m3.page_table@,
                (start1 / PAGE_SIZE) as int, crate::map_area::ceil_vpn((start2 + len2) as usize)),
        ensures
            m1.mmap_ok(start2, len2, port2),
            m2.munmap_ok(start1, (start2 + len2 - start1) as usize),
            m3.areas@ == m0.areas@,
            m3.page_table@ == m0.page_table@,
    {
        let s1 = (start1 / PAGE_SIZE) as int;
        let e1 = crate::map_area::ceil_vpn((start1 + len1) as usize);
        let e2 = crate::map_area::ceil_vpn((start2 + len2) as usize);
        let n = m0.areas@.len() as int;
        let a = m1.areas@.last();
        let b = m2.areas@.last();
        assert(a.wf_shape());
        assert(b.wf_shape());
        assert(s1 < e1);
        assert(e1 < e2);
        assert(m2.areas@[n] == a);
        // the second request is acceptable after the first
        assert forall|i: int| 0 <= i < m1.areas@.len()
            implies !overlaps_range(#[trigger] m1.areas@[i], e1, e2) by {
            if i < n {
                assert(m1.areas@[i] == m0.areas@[i]);
                assert(!overlaps_range(m0.areas@[i], e1, e2));
            }
        }
        assert(m1.mmap_ok(start2, len2, port2));
        // the spanning request is page-exact: ceil(start2 + len2) viewed
        // from start1 is the same page bound
        let combined = (start2 + len2 - start1) as usize;
        assert(crate::map_area::ceil_vpn((start1 + combined) as usize) == e2);
        // the two fresh areas tile the combined range
        assert forall|vpn: usize| s1 <= vpn < e2
            implies #[trigger] m2.covered_at(vpn, s1, e2) by {
            if vpn < e1 {
                assert(m2.areas@[n].contains(vpn)
                    && s1 <= m2.areas@[n].start_vpn && m2.areas@[n].end_vpn <= e2);
            } else {
                assert(m2.areas@[n + 1].contains(vpn)
                    && s1 <= m2.areas@[n + 1].start_vpn && m2.areas@[n + 1].end_vpn <= e2);
            }
        }
        assert forall|i: int| 0 <= i < m2.areas@.len()
            && overlaps_range(#[trigger] m2.areas@[i], s1, e2)
            implies s1 <= m2.areas@[i].start_vpn && m2.areas@[i].end_vpn <= e2 by {
            if i < n {
                assert(m2.areas@[i] == m0.areas@[i]);
                assert(m0.areas@[i].wf_shape());
                assert(!overlaps_range(m0.areas@[i], s1, e1));
                assert(!overlaps_range(m0.areas@[i], e1, e2));
                assert(false);
            }
        }
        assert(m2.range_covered(s1, e2));
        assert(m2.munmap_ok(start1, combined));
        // removing the covered areas removes exactly the two fresh ones
        assert forall|i: int| 0 <= i < n implies keep_outside(s1, e2)(#[trigger] m0.areas@[i]) by {
            assert(m0.areas@[i].wf_shape());
            assert(!overlaps_range(m0.areas@[i], s1, e1));
            assert(!overlaps_range(m0.areas@[i], e1, e2));
        }
        assert(m2.areas@.filter(keep_outside(s1, e2)) == m0.areas@) by {
            reveal(Seq::filter);
            assert(m2.areas@.drop_last() == m1.areas@);
            assert(overlaps_range(b, s1, e2));
            assert(!keep_outside(s1, e2)(b));
            assert(m2.areas@.last() == b);
            assert(m2.areas@.filter(keep_outside(s1, e2))
                == m1.areas@.filter(keep_outside(s1, e2)));
            assert(m1.areas@.drop_last() == m0.areas@);
            assert(overlaps_range(a, s1, e2));
            assert(!keep_outside(s1, e2)(a));
            assert(m1.areas@.last() == a);
            assert(m1.areas@.filter(keep_outside(s1, e2))
                == m0.areas@.filter(keep_outside(s1, e2)));
            lemma_filter_keeps_all(m0.areas@, keep_outside(s1, e2));
        }
        // the page table returns to its old entries
        assert forall|k: usize| true implies
            #[trigger] m3.page_table@.contains_key(k) == m0.page_table@.contains_key(k)
            && (m0.page_table@.contains_key(k) ==> m3.page_table@[k] == m0.page_table@[k]) by {
            if s1 <= k < e2 {
                assert(!m3.page_table@.contains_key(k));
                if m0.page_table@.contains_key(k) {
                    assert(k < e2 <= TRAMPOLINE_VPN);
                    assert(m0.in_some_area(k));
                    let i = choose|i: int| 0 <= i < m0.areas@.len()
                        && (#[trigger] m0.areas@[i]).contains(k);
                    if k < e1 {
                        assert(overlaps_range(m0.areas@[i], s1, e1));
                    } else {
                        assert(overlaps_range(m0.areas@[i], e1, e2));
                    }
                    assert(false);
                }
            } else {
                assert(m1.page_table@.contains_key(k) == m0.page_table@.contains_key(k));
                assert(m2.page_table@.contains_key(k) == m1.page_table@.contains_key(k));
                assert(m3.page_table@.contains_key(k) == m2.page_table@.contains_key(k));
            }
        }
        assert(m3.page_table@ =~= m0.page_table@);
    }
}

} // verus!
