//! Model of the hardware page table: a partial map from virtual page numbers
//! to leaf entries, plus the root frame whose number forms the activation
//! token. Interior tree levels are not modelled; the map is the tree's
//! observable content.

use vstd::prelude::*;
use crate::frame_allocator::FrameAllocator;

verus! {

/// Valid bit of a leaf entry.
pub const PTE_V: u8 = 1;
/// Readable bit.
pub const PTE_R: u8 = 2;
/// Writable bit.
pub const PTE_W: u8 = 4;
/// Executable bit.
pub const PTE_X: u8 = 8;
/// User-accessible bit.
pub const PTE_U: u8 = 16;

/// A leaf page-table entry: target physical page and flag bits.
#[derive(Clone, Copy, PartialEq, Eq, Structural, Debug)]
pub struct PageTableEntry {
    pub ppn: usize,
    pub flags: u8,
}

impl PageTableEntry {
    pub fn new(ppn: usize, flags: u8) -> (pte: Self)
        ensures
            pte == (PageTableEntry { ppn, flags }),
    {
        PageTableEntry { ppn, flags }
    }

    /// The physical page number this entry points at.
    pub fn ppn(&self) -> (p: usize)
        ensures
            p == self.ppn,
    {
        self.ppn
    }

    pub fn is_valid(&self) -> (b: bool)
        ensures
            b == (self.flags & PTE_V != 0),
    {
        self.flags & PTE_V != 0
    }

    pub fn readable(&self) -> (b: bool)
        ensures
            b == (self.flags & PTE_R != 0),
    {
        self.flags & PTE_R != 0
    }

    pub fn writable(&self) -> (b: bool)
        ensures
            b == (self.flags & PTE_W != 0),
    {
        self.flags & PTE_W != 0
    }

    pub fn executable(&self) -> (b: bool)
        ensures
            b == (self.flags & PTE_X != 0),
    {
        self.flags & PTE_X != 0
    }

    pub fn user_accessible(&self) -> (b: bool)
        ensures
            b == (self.flags & PTE_U != 0),
    {
        self.flags & PTE_U != 0
    }
}

/// The map described by a sequence of `(vpn, entry)` pairs; a later pair for
/// the same page wins, though the table keeps its pages distinct.
pub open spec fn entries_map(s: Seq<(usize, PageTableEntry)>) -> Map<usize, PageTableEntry>
    decreases s.len(),
{
    if s.len() == 0 {
        Map::empty()
    } else {
        entries_map(s.drop_last()).insert(s.last().0, s.last().1)
    }
}

/// No two pairs name the same virtual page.
pub open spec fn distinct_keys(s: Seq<(usize, PageTableEntry)>) -> bool {
    forall|i: int, j: int| 0 <= i < j < s.len() ==> (#[trigger] s[i]).0 != (#[trigger] s[j]).0
}

pub proof fn lemma_entries_map_dom(s: Seq<(usize, PageTableEntry)>)
    ensures
        forall|k: usize| #[trigger] entries_map(s).contains_key(k)
            <==> exists|i: int| 0 <= i < s.len() && (#[trigger] s[i]).0 == k,
    decreases s.len(),
{
    if s.len() > 0 {
        lemma_entries_map_dom(s.drop_last());
        assert forall|k: usize| #[trigger] entries_map(s).contains_key(k)
            implies exists|i: int| 0 <= i < s.len() && (#[trigger] s[i]).0 == k by {
            if k == s.last().0 {
                assert(s[s.len() - 1].0 == k);
            } else {
                assert(entries_map(s.drop_last()).contains_key(k));
                let i = choose|i: int| 0 <= i < s.drop_last().len() && (#[trigger] s.drop_last()[i]).0 == k;
                assert(s.drop_last()[i] == s[i]);
                assert(s[i].0 == k);
            }
        }
        assert forall|k: usize|
            (exists|i: int| 0 <= i < s.len() && (#[trigger] s[i]).0 == k)
            implies #[trigger] entries_map(s).contains_key(k) by {
            let i = choose|i: int| 0 <= i < s.len() && (#[trigger] s[i]).0 == k;
            if i < s.len() - 1 {
                assert(s.drop_last()[i] == s[i]);
                assert(s.drop_last()[i].0 == k);
                assert(entries_map(s.drop_last()).contains_key(k));
            } else {
                assert(k == s.last().0);
            }
        }
    }
}

pub proof fn lemma_entries_map_index(s: Seq<(usize, PageTableEntry)>, i: int)
    requires
        distinct_keys(s),
        0 <= i < s.len(),
    ensures
        entries_map(s).contains_key(s[i].0),
        entries_map(s)[s[i].0] == s[i].1,
    decreases s.len(),
{
    lemma_entries_map_dom(s);
    if i < s.len() - 1 {
        assert(s.drop_last()[i] == s[i]);
        lemma_entries_map_index(s.drop_last(), i);
        assert(s[s.len() - 1].0 != s[i].0);
    }
}

pub proof fn lemma_entries_map_remove(s: Seq<(usize, PageTableEntry)>, i: int)
    requires
        distinct_keys(s),
        0 <= i < s.len(),
    ensures
        entries_map(s.remove(i)) == entries_map(s).remove(s[i].0),
    decreases s.len(),
{
    if i == s.len() - 1 {
        assert(s.remove(i) =~= s.drop_last());
        lemma_entries_map_dom(s.drop_last());
        assert(!entries_map(s.drop_last()).contains_key(s[i].0));
        assert(entries_map(s.remove(i)) =~= entries_map(s).remove(s[i].0));
    } else {
        assert(s.remove(i).drop_last() =~= s.drop_last().remove(i));
        assert(s.remove(i).last() == s.last());
        lemma_entries_map_remove(s.drop_last(), i);
        assert(s.drop_last()[i] == s[i]);
        assert(entries_map(s.remove(i))
            == entries_map(s.drop_last().remove(i)).insert(s.last().0, s.last().1));
        assert(s.last().0 != s[i].0);
        assert(entries_map(s.drop_last()).remove(s[i].0).insert(s.last().0, s.last().1)
            =~= entries_map(s.drop_last()).insert(s.last().0, s.last().1).remove(s[i].0));
        assert(entries_map(s.remove(i)) =~= entries_map(s).remove(s[i].0));
    }
}

/// A page table: the root frame number and the leaf entries.
pub struct PageTable {
    pub root_ppn: usize,
    pub entries: Vec<(usize, PageTableEntry)>,
}

impl PageTable {
    /// The partial map this table holds.
    pub open spec fn view(&self) -> Map<usize, PageTableEntry> {
        entries_map(self.entries@)
    }

    /// Pages are distinct and every stored entry carries the valid bit.
    pub open spec fn wf(&self) -> bool {
        &&& distinct_keys(self.entries@)
        &&& forall|i: int| 0 <= i < self.entries@.len()
                ==> (#[trigger] self.entries@[i]).1.flags & PTE_V != 0
    }

    pub open spec fn token_spec(&self) -> u64 {
        (8u64 << 60) | (self.root_ppn as u64)
    }

    /// A fresh table: one root frame from the pool, no entries.
    pub fn new(fa: &mut FrameAllocator) -> (pt: Self)
        requires
            old(fa).wf(),
            old(fa).has_room(1),
        ensures
            pt.wf(),
            pt@ == Map::<usize, PageTableEntry>::empty(),
            final(fa).wf(),
            final(fa).allocated(pt.root_ppn),
            !old(fa).allocated(pt.root_ppn),
            final(fa).count() == old(fa).count() + 1,
            final(fa).slot_count() == old(fa).slot_count() + 1,
            forall|q: usize| q != pt.root_ppn ==>
                (final(fa).allocated(q) == old(fa).allocated(q)
                 && (old(fa).allocated(q) ==> final(fa).page(q) == old(fa).page(q))),
    {
        let root_ppn = fa.frame_alloc();
        PageTable { root_ppn, entries: Vec::new() }
    }

    /// The CSR value that activates this tree (mode bits plus root page).
    pub fn token(&self) -> (t: u64)
        ensures
            t == self.token_spec(),
    {
        (8u64 << 60) | (self.root_ppn as u64)
    }

    /// Install a leaf entry for `vpn`; the valid bit is added to `flags`.
    pub fn map(&mut self, vpn: usize, ppn: usize, flags: u8)
        requires
            old(self).wf(),
            !old(self)@.contains_key(vpn),
        ensures
            final(self).wf(),
            final(self)@ == old(self)@.insert(vpn, PageTableEntry { ppn, flags: flags | PTE_V }),
            final(self).root_ppn == old(self).root_ppn,
    {
        let pte = PageTableEntry { ppn, flags: flags | PTE_V };
        self.entries.push((vpn, pte));
        proof {
            assert(self.entries@.drop_last() == old(self).entries@);
            assert(flags | PTE_V != 0) by (bit_vector);
            assert((flags | PTE_V) & PTE_V != 0) by (bit_vector);
            lemma_entries_map_dom(old(self).entries@);
            assert forall|i: int, j: int| 0 <= i < j < self.entries@.len()
                implies (#[trigger] self.entries@[i]).0 != (#[trigger] self.entries@[j]).0 by {
                if j == self.entries@.len() - 1 {
                    assert(self.entries@[i] == old(self).entries@[i]);
                    assert(!old(self)@.contains_key(vpn));
                }
            }
        }
    }

    /// Clear the entry for `vpn`.
    pub fn unmap(&mut self, vpn: usize)
        requires
            old(self).wf(),
            old(self)@.contains_key(vpn),
        ensures
            final(self).wf(),
            final(self)@ == old(self)@.remove(vpn),
            final(self).root_ppn == old(self).root_ppn,
    {
        proof {
            lemma_entries_map_dom(self.entries@);
        }
        let mut i: usize = 0;
        while i < self.entries.len()
            invariant
                old(self) == self,
                self.wf(),
                self@.contains_key(vpn),
                i <= self.entries@.len(),
                forall|j: int| 0 <= j < i ==> (#[trigger] self.entries@[j]).0 != vpn,
            decreases self.entries@.len() - i,
        {
            if self.entries[i].0 == vpn {
                proof {
                    lemma_entries_map_remove(self.entries@, i as int);
                }
                self.entries.remove(i);
                proof {
                    assert forall|a: int, b: int| 0 <= a < b < self.entries@.len()
                        implies (#[trigger] self.entries@[a]).0 != (#[trigger] self.entries@[b]).0 by {
                        let s = old(self).entries@;
                        let bb = if b < i { b } else { b + 1 };
                        let aa = if a < i { a } else { a + 1 };
                        assert(self.entries@[a] == s[aa]);
                        assert(self.entries@[b] == s[bb]);
                    }
                }
                return;
            }
            i += 1;
        }
        proof {
            lemma_entries_map_dom(self.entries@);
            assert(false);
        }
    }

    /// The current leaf entry for `vpn`, if the table holds one.
    pub fn translate(&self, vpn: usize) -> (r: Option<PageTableEntry>)
        requires
            self.wf(),
        ensures
            r == if self@.contains_key(vpn) { Some(self@[vpn]) } else { None::<PageTableEntry> },
    {
        proof {
            lemma_entries_map_dom(self.entries@);
        }
        let mut i: usize = 0;
        while i < self.entries.len()
            invariant
                self.wf(),
                i <= self.entries@.len(),
                forall|j: int| 0 <= j < i ==> (#[trigger] self.entries@[j]).0 != vpn,
            decreases self.entries@.len() - i,
        {
            if self.entries[i].0 == vpn {
                proof {
                    lemma_entries_map_index(self.entries@, i as int);
                }
                return Some(self.entries[i].1);
            }
            i += 1;
        }
        proof {
            lemma_entries_map_dom(self.entries@);
        }
        None
    }
}

} // verus!
