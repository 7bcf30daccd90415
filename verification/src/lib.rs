//! Verified core logic of a small RISC-V (Sv39) teaching kernel and its user shell.

use vstd::prelude::*;

pub mod sched;
pub mod task;
pub mod manager;
pub mod frame_allocator;
pub mod page_table;
pub mod memory_set;
pub mod tty;
pub mod process;
pub mod syscall_fs;
pub mod syscall_process;
pub mod shell;
pub mod editor;
pub mod elf;
pub mod apps;
pub mod mmap;
pub mod vfs;
pub mod fs_inode;
pub mod user_buffer;
pub mod phys_mem;
