# rcore_os

The memory-management, scheduling and process-management core of a small
RISC-V (SV39) teaching kernel, written in Verus and proved against its
contracts.

- `src/mm/address.rs`: page numbers and the three table indices of a
  virtual page number.
- `src/mm/memory.rs`: physical memory as frames of 512 words, with a
  frame allocator that hands out cleared frames.
- `src/mm/page_table.rs`: page-table entries and their flags, and the
  three-level page table: the walk, `map`, `unmap`, `translate`, tokens.
  The tree invariant (`table_wf`) and the mapping view (`mapping`) are
  kept by every operation.
- `src/mm/user_buffer.rs`: the frames behind a user range, checked against
  the page flags, and the copies between kernel buffers and user memory.
- `src/mm/memory_set.rs`: anonymous mappings (`mmap`, `munmap`) and the
  program break.
- `src/task/`: the stride scheduler's ready queue and the switch from the
  running task to the next one.
- `src/syscall/process.rs`: the process-management system calls.
- `app/`: the global ready queue, the clock, typed copies of kernel values
  to and from user memory, and the `bitflags` form of the entry flags.
