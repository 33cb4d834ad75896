//! A model of a small sv39 RISC-V supervisor-mode kernel: physical frames,
//! three-level page tables, per-task address spaces built from ELF images,
//! a round-robin task scheduler, and the syscall/trap decision layer.
//!
//! Hardware itself (CSRs, the trampoline, SBI firmware calls) lies outside
//! the library; physical memory is modelled explicitly so that every memory
//! operation the kernel performs is verified against it.

pub mod address;
pub mod config;
pub mod elf;
pub mod frame_allocator;
pub mod kernel;
pub mod memory_set;
pub mod page_table;
pub mod phys_mem;
pub mod pid;
pub mod task;
pub mod timer;
