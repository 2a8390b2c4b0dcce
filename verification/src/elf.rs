//! Little-endian readers and the layout of a 64-bit ELF image: the header
//! fields and program headers that address-space construction consumes.

use vstd::prelude::*;
use crate::config::MAX_USER_VA;
use crate::map_area::{ceil_vpn, floor_vpn, PERM_R, PERM_U, PERM_W, PERM_X};

verus! {

/// The value of the two little-endian bytes at `off`.
pub open spec fn le16(s: Seq<u8>, off: int) -> int {
    s[off] + 0x100 * s[off + 1]
}

/// The value of the four little-endian bytes at `off`.
pub open spec fn le32(s: Seq<u8>, off: int) -> int {
    s[off] + 0x100 * s[off + 1] + 0x1_0000 * s[off + 2] + 0x100_0000 * s[off + 3]
}

/// The value of the eight little-endian bytes at `off`.
pub open spec fn le64(s: Seq<u8>, off: int) -> int {
    le32(s, off) + 0x1_0000_0000 * le32(s, off + 4)
}

pub fn read_u16(data: &[u8], off: usize) -> (r: u16)
    requires
        off + 2 <= data@.len(),
    ensures
        r == le16(data@, off as int),
{
    (data[off] as u16) + 0x100 * (data[off + 1] as u16)
}

pub fn read_u32(data: &[u8], off: usize) -> (r: u32)
    requires
        off + 4 <= data@.len(),
    ensures
        r == le32(data@, off as int),
{
    (data[off] as u32) + 0x100 * (data[off + 1] as u32)
        + 0x1_0000 * (data[off + 2] as u32) + 0x100_0000 * (data[off + 3] as u32)
}

pub fn read_u64(data: &[u8], off: usize) -> (r: u64)
    requires
        off + 8 <= data@.len(),
    ensures
        r == le64(data@, off as int),
{
    let n = data.len();
    proof {
        assert(off + 8 <= n);
    }
    let lo = read_u32(data, off);
    let hi = read_u32(data, off + 4);
    (lo as u64) + 0x1_0000_0000 * (hi as u64)
}

/// The image's entry point.
pub open spec fn entry_of(s: Seq<u8>) -> int {
    le64(s, 24)
}

/// Offset of the program-header table.
pub open spec fn ph_off(s: Seq<u8>) -> int {
    le64(s, 32)
}

/// Number of program headers.
pub open spec fn ph_count(s: Seq<u8>) -> int {
    le16(s, 56)
}

/// Offset of program header `k`.
pub open spec fn ph_at(s: Seq<u8>, k: int) -> int {
    ph_off(s) + 56 * k
}

/// Whether program header `k` describes a LOAD segment.
pub open spec fn is_load(s: Seq<u8>, k: int) -> bool {
    le32(s, ph_at(s, k)) == 1
}

pub open spec fn seg_flags(s: Seq<u8>, k: int) -> int {
    le32(s, ph_at(s, k) + 4)
}

pub open spec fn seg_off(s: Seq<u8>, k: int) -> int {
    le64(s, ph_at(s, k) + 8)
}

pub open spec fn seg_vaddr(s: Seq<u8>, k: int) -> int {
    le64(s, ph_at(s, k) + 16)
}

pub open spec fn seg_filesz(s: Seq<u8>, k: int) -> int {
    le64(s, ph_at(s, k) + 32)
}

pub open spec fn seg_memsz(s: Seq<u8>, k: int) -> int {
    le64(s, ph_at(s, k) + 40)
}

/// Segment `k`'s flag word as the machine reads it.
pub open spec fn seg_flags_u32(s: Seq<u8>, k: int) -> u32 {
    seg_flags(s, k) as u32
}

/// The permission bits segment `k` asks for: its R/W/X flags plus the user
/// bit.
pub open spec fn seg_perm(s: Seq<u8>, k: int) -> u8 {
    PERM_U
        | (if seg_flags_u32(s, k) & 4 != 0 { PERM_R } else { 0u8 })
        | (if seg_flags_u32(s, k) & 2 != 0 { PERM_W } else { 0u8 })
        | (if seg_flags_u32(s, k) & 1 != 0 { PERM_X } else { 0u8 })
}

/// A LOAD segment that actually occupies memory; zero-size LOAD segments
/// are skipped everywhere.
pub open spec fn is_real_load(s: Seq<u8>, k: int) -> bool {
    is_load(s, k) && seg_memsz(s, k) >= 1
}

/// Number of loaded segments among the first `k` program headers.
pub open spec fn count_loads(s: Seq<u8>, k: int) -> int
    decreases k,
{
    if k <= 0 {
        0
    } else {
        count_loads(s, k - 1) + if is_real_load(s, k - 1) { 1int } else { 0int }
    }
}

/// Largest page bound of the first `k` program headers' loaded segments.
pub open spec fn max_load_end(s: Seq<u8>, k: int) -> int
    decreases k,
{
    if k <= 0 {
        0
    } else if is_real_load(s, k - 1)
        && ceil_vpn((seg_vaddr(s, k - 1) + seg_memsz(s, k - 1)) as usize) > max_load_end(s, k - 1) {
        ceil_vpn((seg_vaddr(s, k - 1) + seg_memsz(s, k - 1)) as usize)
    } else {
        max_load_end(s, k - 1)
    }
}

/// A well-formed 64-bit ELF image: the magic, a standard program-header
/// table in range, and loaded segments that lie below the user bound, stay
/// inside the file, and ascend without sharing pages.
pub open spec fn elf_wf(s: Seq<u8>) -> bool {
    &&& s.len() >= 64
    &&& s[0] == 0x7f && s[1] == 0x45 && s[2] == 0x4c && s[3] == 0x46
    &&& le16(s, 54) == 56
    &&& ph_off(s) + 56 * ph_count(s) <= s.len()
    &&& 0 <= entry_of(s) <= MAX_USER_VA
    &&& forall|k: int| 0 <= k < ph_count(s) && #[trigger] is_real_load(s, k) ==> {
        &&& seg_off(s, k) + seg_filesz(s, k) <= s.len()
        &&& seg_filesz(s, k) <= seg_memsz(s, k)
        &&& seg_vaddr(s, k) + seg_memsz(s, k) <= MAX_USER_VA
        &&& forall|j: int| 0 <= j < k && #[trigger] is_real_load(s, j) ==>
                ceil_vpn((seg_vaddr(s, j) + seg_memsz(s, j)) as usize)
                    <= floor_vpn(seg_vaddr(s, k) as usize)
    }
}

/// Under ascending well-formed LOAD segments, every earlier page bound lies
/// at or below segment `k`'s first page.
pub proof fn lemma_max_load_end_le(s: Seq<u8>, k: int, j: int)
    requires
        elf_wf(s),
        0 <= j <= k < ph_count(s),
        is_real_load(s, k),
    ensures
        max_load_end(s, j) <= floor_vpn(seg_vaddr(s, k) as usize),
    decreases j,
{
    if j > 0 {
        lemma_max_load_end_le(s, k, j - 1);
        if is_real_load(s, j - 1) {
            assert(ceil_vpn((seg_vaddr(s, j - 1) + seg_memsz(s, j - 1)) as usize)
                <= floor_vpn(seg_vaddr(s, k) as usize));
        }
    }
}

/// A loaded segment strictly below `k` strictly precedes it in load order.
pub proof fn lemma_count_loads_mono(s: Seq<u8>, k2: int, k: int)
    requires
        0 <= k2 < k,
        is_real_load(s, k2),
    ensures
        count_loads(s, k2) < count_loads(s, k),
        count_loads(s, k2) >= 0,
    decreases k,
{
    if k2 == k - 1 {
        lemma_count_loads_nonneg(s, k2);
    } else {
        lemma_count_loads_mono(s, k2, k - 1);
    }
}

/// Load counts never go negative.
pub proof fn lemma_count_loads_nonneg(s: Seq<u8>, k: int)
    ensures
        count_loads(s, k) >= 0,
    decreases k,
{
    if k > 0 {
        lemma_count_loads_nonneg(s, k - 1);
    }
}

} // verus!
