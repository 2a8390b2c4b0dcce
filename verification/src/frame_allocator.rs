//! Model of the physical frame pool. A frame is one page of bytes; the pool
//! hands out exclusively owned frames, zeroed on allocation, and takes them
//! back on release. The pool also holds the contents of every allocated
//! frame, so that copies between frames are observable.

use vstd::prelude::*;
use crate::config::{PAGE_SIZE, FRAME_BASE_PPN, FRAME_LIMIT};

verus! {

/// Number of allocated slots in a pool's slot sequence.
pub open spec fn count_some(s: Seq<Option<Vec<u8>>>) -> int
    decreases s.len(),
{
    if s.len() == 0 {
        0
    } else {
        count_some(s.drop_last()) + if s.last() is Some { 1int } else { 0int }
    }
}

/// The physical frame pool. Slot `i` stands for physical page number
/// `FRAME_BASE_PPN + i`; an allocated slot holds that frame's bytes.
pub struct FrameAllocator {
    pub slots: Vec<Option<Vec<u8>>>,
}

impl FrameAllocator {
    /// Slots handed out so far (allocated or returned).
    pub open spec fn slot_count(&self) -> int {
        self.slots@.len() as int
    }

    /// Whether `ppn` names a frame this pool has ever handed out.
    pub open spec fn in_range(&self, ppn: usize) -> bool {
        FRAME_BASE_PPN <= ppn < FRAME_BASE_PPN + self.slots@.len()
    }

    /// Whether `ppn` is currently allocated.
    pub open spec fn allocated(&self, ppn: usize) -> bool {
        self.in_range(ppn) && self.slots@[ppn - FRAME_BASE_PPN] is Some
    }

    /// The bytes of the allocated frame `ppn`.
    pub open spec fn page(&self, ppn: usize) -> Seq<u8> {
        self.slots@[ppn - FRAME_BASE_PPN]->0@
    }

    /// Number of currently allocated frames.
    pub open spec fn count(&self) -> int {
        count_some(self.slots@)
    }

    /// Every allocated frame holds exactly one page of bytes, and the pool
    /// has not run past its machine limit.
    pub open spec fn wf(&self) -> bool {
        &&& self.slots@.len() <= FRAME_LIMIT
        &&& forall|ppn: usize| self.allocated(ppn) ==> (#[trigger] self.page(ppn)).len() == PAGE_SIZE
    }

    /// Room for `n` more frames under the machine limit.
    pub open spec fn has_room(&self, n: int) -> bool {
        self.slots@.len() + n <= FRAME_LIMIT
    }

    pub fn new() -> (fa: Self)
        ensures
            fa.wf(),
            fa.count() == 0,
            fa.slot_count() == 0,
            forall|ppn: usize| !fa.allocated(ppn),
    {
        FrameAllocator { slots: Vec::new() }
    }

    /// Allocate one frame: a fresh physical page number whose page is zeroed.
    pub fn frame_alloc(&mut self) -> (ppn: usize)
        requires
            old(self).wf(),
            old(self).has_room(1),
        ensures
            final(self).wf(),
            !old(self).allocated(ppn),
            final(self).allocated(ppn),
            final(self).page(ppn) == Seq::new(PAGE_SIZE as nat, |i: int| 0u8),
            final(self).count() == old(self).count() + 1,
            final(self).slot_count() == old(self).slot_count() + 1,
            final(self).has_room(0),
            forall|q: usize| q != ppn ==>
                (final(self).allocated(q) == old(self).allocated(q)
                 && (old(self).allocated(q) ==> final(self).page(q) == old(self).page(q))),
            ppn == FRAME_BASE_PPN + old(self).slot_count(),
    {
        let mut page: Vec<u8> = Vec::new();
        while page.len() < PAGE_SIZE
            invariant
                page@.len() <= PAGE_SIZE,
                forall|i: int| 0 <= i < page@.len() ==> page@[i] == 0u8,
            decreases PAGE_SIZE - page@.len(),
        {
            page.push(0u8);
        }
        let ppn = FRAME_BASE_PPN + self.slots.len();
        self.slots.push(Some(page));
        proof {
            assert(self.slots@.drop_last() == old(self).slots@);
            assert(self.page(ppn) =~= Seq::new(PAGE_SIZE as nat, |i: int| 0u8));
            assert forall|q: usize| self.allocated(q)
                implies (#[trigger] self.page(q)).len() == PAGE_SIZE by {
                if q == ppn {
                    assert(self.page(ppn).len() == PAGE_SIZE);
                } else {
                    assert(self.slots@[q - FRAME_BASE_PPN] == old(self).slots@[q - FRAME_BASE_PPN]);
                    assert(old(self).allocated(q));
                    assert(old(self).page(q).len() == PAGE_SIZE);
                    assert(self.page(q) == old(self).page(q));
                }
            }
            assert forall|q: usize| q != ppn && old(self).allocated(q)
                implies self.allocated(q) && self.page(q) == old(self).page(q) by {
                assert(self.slots@[q - FRAME_BASE_PPN] == old(self).slots@[q - FRAME_BASE_PPN]);
            }
        }
        ppn
    }

    /// Return the frame `ppn` to the pool.
    pub fn frame_dealloc(&mut self, ppn: usize)
        requires
            old(self).wf(),
            old(self).allocated(ppn),
        ensures
            final(self).wf(),
            !final(self).allocated(ppn),
            final(self).count() == old(self).count() - 1,
            final(self).slot_count() == old(self).slot_count(),
            forall|q: usize| q != ppn ==>
                (final(self).allocated(q) == old(self).allocated(q)
                 && (old(self).allocated(q) ==> final(self).page(q) == old(self).page(q))),
    {
        let idx = ppn - FRAME_BASE_PPN;
        self.slots.set(idx, None);
        proof {
            lemma_count_some_update(old(self).slots@, idx as int, None);
            assert forall|q: usize| self.allocated(q)
                implies (#[trigger] self.page(q)).len() == PAGE_SIZE by {
                assert(self.slots@[q - FRAME_BASE_PPN] == old(self).slots@[q - FRAME_BASE_PPN]);
                assert(old(self).allocated(q));
                assert(old(self).page(q).len() == PAGE_SIZE);
                assert(self.page(q) == old(self).page(q));
            }
        }
    }

    /// Read one byte of an allocated frame.
    pub fn read_byte(&self, ppn: usize, offset: usize) -> (b: u8)
        requires
            self.wf(),
            self.allocated(ppn),
            offset < PAGE_SIZE,
        ensures
            b == self.page(ppn)[offset as int],
    {
        let idx = ppn - FRAME_BASE_PPN;
        proof {
            assert(self.page(ppn).len() == PAGE_SIZE);
        }
        match &self.slots[idx] {
            Some(page) => page[offset],
            None => 0,
        }
    }

    /// Write `src[lo..hi]` to the front of frame `ppn`, leaving its tail.
    pub fn fill_page(&mut self, ppn: usize, src: &[u8], lo: usize, hi: usize)
        requires
            old(self).wf(),
            old(self).allocated(ppn),
            lo <= hi <= src@.len(),
            hi - lo <= PAGE_SIZE,
        ensures
            final(self).wf(),
            final(self).page(ppn)
                == src@.subrange(lo as int, hi as int) + old(self).page(ppn).skip(hi - lo),
            final(self).count() == old(self).count(),
            final(self).slot_count() == old(self).slot_count(),
            forall|q: usize| q != ppn ==>
                (final(self).allocated(q) == old(self).allocated(q)
                 && (old(self).allocated(q) ==> final(self).page(q) == old(self).page(q))),
            final(self).allocated(ppn),
    {
        let idx = ppn - FRAME_BASE_PPN;
        let n = hi - lo;
        let mut page: Vec<u8> = Vec::new();
        let mut j: usize = 0;
        while j < n
            invariant
                j <= n,
                n == hi - lo,
                lo <= hi <= src@.len(),
                page@ =~= src@.subrange(lo as int, lo + j),
            decreases n - j,
        {
            page.push(src[lo + j]);
            j += 1;
        }
        proof {
            assert(self.page(ppn).len() == PAGE_SIZE);
        }
        let old_page = match &self.slots[idx] {
            Some(p) => p,
            None => vstd::pervasive::unreached(),
        };
        proof {
            assert(old_page@ == self.page(ppn));
            assert(page@ =~= src@.subrange(lo as int, hi as int));
            assert(page@ =~= src@.subrange(lo as int, hi as int)
                + old_page@.subrange(n as int, n as int));
        }
        let mut k: usize = n;
        while k < old_page.len()
            invariant
                n <= k <= old_page@.len(),
                old_page@ == old(self).page(ppn),
                n == hi - lo,
                lo <= hi <= src@.len(),
                page@ =~= src@.subrange(lo as int, hi as int) + old_page@.subrange(n as int, k as int),
            decreases old_page@.len() - k,
        {
            let b = old_page[k];
            page.push(b);
            k += 1;
        }
        proof {
            assert(page@ =~= src@.subrange(lo as int, hi as int)
                + old(self).page(ppn).skip(hi - lo));
        }
        self.slots.set(idx, Some(page));
        proof {
            lemma_count_some_update(old(self).slots@, idx as int, Some(page));
            assert forall|q: usize| self.allocated(q)
                implies (#[trigger] self.page(q)).len() == PAGE_SIZE by {
                if q == ppn {
                    assert(self.page(ppn).len() == PAGE_SIZE);
                } else {
                    assert(self.slots@[q - FRAME_BASE_PPN] == old(self).slots@[q - FRAME_BASE_PPN]);
                    assert(old(self).allocated(q));
                    assert(old(self).page(q).len() == PAGE_SIZE);
                    assert(self.page(q) == old(self).page(q));
                }
            }
        }
    }

    /// Copy the whole page of frame `src_ppn` onto frame `dst_ppn`.
    pub fn copy_page(&mut self, dst_ppn: usize, src_ppn: usize)
        requires
            old(self).wf(),
            old(self).allocated(dst_ppn),
            old(self).allocated(src_ppn),
            dst_ppn != src_ppn,
        ensures
            final(self).wf(),
            final(self).page(dst_ppn) == old(self).page(src_ppn),
            final(self).count() == old(self).count(),
            final(self).slot_count() == old(self).slot_count(),
            forall|q: usize| q != dst_ppn ==>
                (final(self).allocated(q) == old(self).allocated(q)
                 && (old(self).allocated(q) ==> final(self).page(q) == old(self).page(q))),
            final(self).allocated(dst_ppn),
    {
        let src_idx = src_ppn - FRAME_BASE_PPN;
        let dst_idx = dst_ppn - FRAME_BASE_PPN;
        proof {
            assert(self.page(src_ppn).len() == PAGE_SIZE);
        }
        let src_page = match &self.slots[src_idx] {
            Some(p) => p,
            None => vstd::pervasive::unreached(),
        };
        let mut page: Vec<u8> = Vec::new();
        let mut j: usize = 0;
        while j < src_page.len()
            invariant
                j <= src_page@.len(),
                src_page@ == old(self).page(src_ppn),
                page@ =~= src_page@.subrange(0, j as int),
            decreases src_page@.len() - j,
        {
            let b = src_page[j];
            page.push(b);
            j += 1;
        }
        proof {
            assert(page@ =~= old(self).page(src_ppn));
        }
        self.slots.set(dst_idx, Some(page));
        proof {
            lemma_count_some_update(old(self).slots@, dst_idx as int, Some(page));
            assert forall|q: usize| self.allocated(q)
                implies (#[trigger] self.page(q)).len() == PAGE_SIZE by {
                if q == dst_ppn {
                    assert(self.page(dst_ppn).len() == PAGE_SIZE);
                } else {
                    assert(self.slots@[q - FRAME_BASE_PPN] == old(self).slots@[q - FRAME_BASE_PPN]);
                    assert(old(self).allocated(q));
                    assert(old(self).page(q).len() == PAGE_SIZE);
                    assert(self.page(q) == old(self).page(q));
                }
            }
        }
    }

    /// Number of currently allocated frames, as a value.
    pub fn allocated_count(&self) -> (n: usize)
        requires
            self.wf(),
        ensures
            n == self.count(),
    {
        let mut n: usize = 0;
        let mut i: usize = 0;
        while i < self.slots.len()
            invariant
                i <= self.slots@.len(),
                self.wf(),
                n == count_some(self.slots@.subrange(0, i as int)),
                n <= i,
            decreases self.slots@.len() - i,
        {
            proof {
                assert(self.slots@.subrange(0, i + 1).drop_last()
                    =~= self.slots@.subrange(0, i as int));
                assert(self.slots@.subrange(0, i + 1).last() == self.slots@[i as int]);
            }
            if self.slots[i].is_some() {
                n += 1;
            }
            i += 1;
        }
        proof {
            assert(self.slots@.subrange(0, self.slots@.len() as int) =~= self.slots@);
        }
        n
    }
}

/// Updating one slot changes the allocated count by the difference at that slot.
proof fn lemma_count_some_update(s: Seq<Option<Vec<u8>>>, i: int, v: Option<Vec<u8>>)
    requires
        0 <= i < s.len(),
    ensures
        count_some(s.update(i, v)) == count_some(s)
            + (if v is Some { 1int } else { 0int })
            - (if s[i] is Some { 1int } else { 0int }),
    decreases s.len(),
{
    if s.len() == 0 {
    } else if i == s.len() - 1 {
        assert(s.update(i, v).drop_last() =~= s.drop_last());
    } else {
        assert(s.update(i, v).drop_last() =~= s.drop_last().update(i, v));
        lemma_count_some_update(s.drop_last(), i, v);
    }
}

} // verus!
