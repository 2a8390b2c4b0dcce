//! Platform constants: page geometry, the physical-memory bound, the fixed
//! trampoline and trap-context virtual addresses, and the user stack size.

use vstd::prelude::*;

verus! {

/// Bytes in one page.
pub const PAGE_SIZE: usize = 4096;

/// End of usable physical memory (byte address).
pub const MEMORY_END: usize = 0x8080_0000;

/// Virtual address of the trampoline page: the highest page of the address space.
pub const TRAMPOLINE: usize = usize::MAX - PAGE_SIZE + 1;

/// Virtual address of the trap-context page: one page below the trampoline.
pub const TRAP_CONTEXT: usize = usize::MAX - PAGE_SIZE + 1 - PAGE_SIZE;

/// Size of a user stack in bytes.
pub const USER_STACK_SIZE: usize = 8192;

/// Virtual page number of the trampoline page; every area ends at or below it.
pub const TRAMPOLINE_VPN: usize = (usize::MAX - PAGE_SIZE + 1) / PAGE_SIZE;

/// Virtual page number of the trap-context page.
pub const TRAP_CONTEXT_VPN: usize = (usize::MAX - PAGE_SIZE + 1) / PAGE_SIZE - 1;

/// First physical page number handed out by the frame pool.
pub const FRAME_BASE_PPN: usize = 0x80400;

/// Most frames the pool will ever hand out (a machine limit, not a policy).
pub const FRAME_LIMIT: usize = 0x1000_0000;

/// No user segment may reach this virtual address; keeps user code, its stack
/// and the guard page clear of the trap-context and trampoline pages.
pub const MAX_USER_VA: usize = 0xf000_0000;

/// First byte of the platform interrupt controller's register window.
pub const PLIC_START: usize = 0x0c00_0000;

/// First byte past the platform interrupt controller's register window.
pub const PLIC_END: usize = 0x1000_0000;

pub proof fn constants_are_consistent()
    ensures
        TRAMPOLINE == TRAMPOLINE_VPN * PAGE_SIZE,
        TRAP_CONTEXT == TRAP_CONTEXT_VPN * PAGE_SIZE,
        MAX_USER_VA / PAGE_SIZE + 3 + USER_STACK_SIZE / PAGE_SIZE < TRAP_CONTEXT_VPN,
{
}

} // verus!
