# os_kernel

The core of a small RISC-V (Sv39) teaching kernel, written in Verus and
verified.

- `src/mm`: Sv39 addresses, a model of physical memory (frames of 512
  words), three-level page tables (map, unmap, translate, walks of user
  buffers, dumps), and the allocation pattern of the heap benchmark.
- `src/sync`: deadlock detection with the banker's safety check, the
  per-process detector state and the manager that routes to it, and mutexes
  and semaphores written as state machines whose waits the caller carries
  out.
- `src/syscall`: decoding of system calls and the work of `trace`,
  `get_time` and `sbrk`.
- `src/task`: stride-scheduling passes and their wrap-aware order.
- `app`: the kernel glue that cannot be verified here: the global heap
  allocator, the global deadlock manager, task switching around waits,
  system-call dispatch and printing.
