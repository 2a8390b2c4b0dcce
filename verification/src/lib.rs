//! Virtual-memory management core of a small RISC-V kernel: address spaces
//! built from mapping areas over a page table, backed by a frame pool, with
//! `mmap`/`munmap`-style operations that forbid overlaps and partial unmaps.

pub mod config;
pub mod frame_allocator;
pub mod page_table;
pub mod elf;
pub mod map_area;
pub mod memory_set;
pub mod task;
