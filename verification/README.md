# rcore_os

Verified core of a small RISC-V (Sv39) teaching kernel and of its user
shell, written in Verus.

`src/` holds the logic, each function with a contract that Verus proves:

- `frame_allocator`, `page_table`, `memory_set`: physical frames with
  reference counts, the three-level page table, address spaces with
  copy-on-write fork and the write-fault handler, the kernel space.
- `elf`, `apps`: loading programs (headers read through `xmas_elf`, the
  segments then mapped and filled by `map_segments` and `fill_loads`) and
  `exec` (its path and argument strings read from user memory, the
  program looked up along `PATH`); the application list.
- `mmap`: anonymous mappings.
- `user_buffer`, `phys_mem`: user ranges split into pieces of frames;
  strings read and data copied through a page table into physical memory.
- `vfs`, `fs_inode`: the easy-fs inode layer (directories, path lookup,
  file contents) and open files.
- `process`, `syscall_fs`, `syscall_process`: descriptor tables, working
  directory and paths, reads and writes between open files and user
  buffers, `pipe` descriptors, `mkdir`/`unlink`/`rename`, the process
  records of `fork` and `exit`, `yield`, wait, kill, process groups,
  priorities and scheduling statistics.
- `sched`, `task`, `manager`: round-robin and priority scheduling.
- `tty`: the terminal line discipline.
- `shell`, `editor`: the shell's tokenizer, parser, job table and
  builtins' decisions, and the line editor.

Devices and context switches are not modeled, and of a trap context only
the register that carries a system call's result (`fork_child_return`).
Physical memory is a
byte vector (`PhysMem`): loading a program fills each segment's pages
with its file bytes and zeros after them, both forks copy the pages they do not share, the
fault handler copies the page it privatizes, and `read`, `pipe`,
`getcwd`, `getpath`, `getdents` and `waitpid` make the user pages private
before they store into them through the page table. Every such call
states that, besides the bytes it stores, only frames it newly allocated
change, so no other address space sees the write
(`lemma_other_space_unchanged`), and `frame_alloc` clears the frames it hands
out. The file-system calls resolve paths from
the root or the working directory against the inode layer. The library
decides, and the code around it (`app/`, for the shell) performs the
system calls and I/O.

`tests/` exercises the library; `app/` is the shell's driver loop over a
`Sys` trait of system calls.
