use vstd::prelude::*;

pub mod address;
pub mod frame_allocator;
pub mod memory_set;
pub mod page_table;
pub mod phys_mem;
pub mod syscall;
pub mod task;
pub mod trap;
pub mod config;
pub mod elf;

verus! {

} // verus!
